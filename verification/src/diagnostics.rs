//! The compiler's problems turned into editor diagnostics, grouped by file,
//! and the operations on such groups.
use vstd::prelude::*;
use vstd::string::*;
use crate::compiler::{CompileError, CompilerOutput, Problem, Region};
use crate::file_operations::joined;
use crate::line_scan::{contains_text, str_contains};
use crate::ordering::str_equal;
use crate::paths::join_sep;
use crate::protocol::{Position, Range};
use crate::text::{chars_of, join_strings, string_from_chars, string_texts};

verus! {

/// How serious a diagnostic is.
#[allow(non_camel_case_types)]
#[derive(Debug, Clone, Copy, PartialEq, Eq, Structural)]
pub enum DiagnosticSeverity {
    ERROR,
    WARNING,
    INFORMATION,
    HINT,
}

/// Extra marks on a diagnostic.
#[allow(non_camel_case_types)]
#[derive(Debug, Clone, Copy, PartialEq, Eq, Structural)]
pub enum DiagnosticTag {
    UNNECESSARY,
    DEPRECATED,
}

/// A problem reported at a range of a document.
#[derive(Debug, Clone)]
pub struct Diagnostic {
    pub range: Range,
    pub severity: Option<DiagnosticSeverity>,
    pub code: Option<String>,
    pub source: Option<String>,
    pub message: String,
    pub tags: Option<Vec<DiagnosticTag>>,
}

/// The diagnostics of one file.
#[derive(Debug, Clone)]
pub struct FileDiagnostics {
    pub uri: String,
    pub diagnostics: Vec<Diagnostic>,
}

/// Diagnostics grouped by file URI, each URI at most once.
#[derive(Debug, Clone)]
pub struct DiagnosticsMap {
    pub files: Vec<FileDiagnostics>,
}

/// A diagnostic by the texts of its fields.
pub struct DiagnosticModel {
    pub range: Range,
    pub severity: Option<DiagnosticSeverity>,
    pub code: Option<Seq<char>>,
    pub source: Option<Seq<char>>,
    pub message: Seq<char>,
    pub tags: Option<Seq<DiagnosticTag>>,
}

pub open spec fn opt_text(o: Option<String>) -> Option<Seq<char>> {
    match o {
        Some(s) => Some(s@),
        None => None,
    }
}

pub open spec fn diagnostic_model(d: Diagnostic) -> DiagnosticModel {
    DiagnosticModel {
        range: d.range,
        severity: d.severity,
        code: opt_text(d.code),
        source: opt_text(d.source),
        message: d.message@,
        tags: match d.tags {
            Some(t) => Some(t@),
            None => None,
        },
    }
}

pub open spec fn diagnostic_models(v: Seq<Diagnostic>) -> Seq<DiagnosticModel> {
    v.map_values(|d: Diagnostic| diagnostic_model(d))
}

/// The groups of a map, by URI text.
pub open spec fn map_model(m: DiagnosticsMap) -> Seq<(Seq<char>, Seq<DiagnosticModel>)> {
    m.files@.map_values(|f: FileDiagnostics| (f.uri@, diagnostic_models(f.diagnostics@)))
}

/// No URI appears twice.
pub open spec fn distinct_uris(g: Seq<(Seq<char>, Seq<DiagnosticModel>)>) -> bool {
    forall|a: int, b: int| 0 <= a < g.len() && 0 <= b < g.len() && a != b ==> (#[trigger] g[a]).0 != (#[trigger] g[b]).0
}

/// Where the group of `uri` is, or -1.
pub open spec fn uri_index(g: Seq<(Seq<char>, Seq<DiagnosticModel>)>, uri: Seq<char>) -> int
    decreases g.len(),
{
    if g.len() == 0 {
        -1
    } else if g.last().0 == uri {
        g.len() - 1
    } else {
        uri_index(g.drop_last(), uri)
    }
}

/// `ds` added to the group of `uri`: after its diagnostics when it has a
/// group, as a new last group otherwise.
pub open spec fn add_to_group(
    g: Seq<(Seq<char>, Seq<DiagnosticModel>)>,
    uri: Seq<char>,
    ds: Seq<DiagnosticModel>,
) -> Seq<(Seq<char>, Seq<DiagnosticModel>)> {
    let j = uri_index(g, uri);
    if j >= 0 {
        g.update(j, (uri, g[j].1 + ds))
    } else {
        g.push((uri, ds))
    }
}

/// The group of `uri` replaced by `ds` (added last when it has none).
pub open spec fn put_group(
    g: Seq<(Seq<char>, Seq<DiagnosticModel>)>,
    uri: Seq<char>,
    ds: Seq<DiagnosticModel>,
) -> Seq<(Seq<char>, Seq<DiagnosticModel>)> {
    let j = uri_index(g, uri);
    if j >= 0 {
        g.update(j, (uri, ds))
    } else {
        g.push((uri, ds))
    }
}

pub proof fn lemma_uri_index(g: Seq<(Seq<char>, Seq<DiagnosticModel>)>, uri: Seq<char>)
    ensures
        -1 <= uri_index(g, uri) < g.len(),
        uri_index(g, uri) >= 0 ==> g[uri_index(g, uri)].0 == uri,
        uri_index(g, uri) == -1 ==> forall|k: int| 0 <= k < g.len() ==> (#[trigger] g[k]).0 != uri,
    decreases g.len(),
{
    if g.len() > 0 {
        lemma_uri_index(g.drop_last(), uri);
        if g.last().0 != uri {
            assert forall|k: int| 0 <= k < g.len() - 1 implies g[k] == g.drop_last()[k] by {}
        }
    }
}

/// Adding to a group keeps URIs distinct.
pub proof fn lemma_add_keeps_distinct(
    g: Seq<(Seq<char>, Seq<DiagnosticModel>)>,
    uri: Seq<char>,
    ds: Seq<DiagnosticModel>,
)
    requires
        distinct_uris(g),
    ensures
        distinct_uris(add_to_group(g, uri, ds)),
        distinct_uris(put_group(g, uri, ds)),
{
    lemma_uri_index(g, uri);
}

/// The editor's severity of a problem, read from its title.
pub open spec fn severity_of(title: Seq<char>) -> DiagnosticSeverity {
    if contains_text(title, "SYNTAX"@) || contains_text(title, "PARSE"@) || contains_text(
        title,
        "UNFINISHED"@,
    ) || contains_text(title, "TYPE"@) || contains_text(title, "MISMATCH"@) || contains_text(
        title,
        "IMPORT"@,
    ) || contains_text(title, "MODULE"@) || contains_text(title, "MISSING"@) || contains_text(
        title,
        "NOT FOUND"@,
    ) {
        DiagnosticSeverity::ERROR
    } else if contains_text(title, "UNUSED"@) || contains_text(title, "STYLE"@) || contains_text(
        title,
        "DEPRECATED"@,
    ) {
        DiagnosticSeverity::WARNING
    } else if contains_text(title, "HINT"@) || contains_text(title, "INFO"@) {
        DiagnosticSeverity::INFORMATION
    } else {
        DiagnosticSeverity::ERROR
    }
}

/// The tags of a problem, read from its title.
pub open spec fn tags_of(title: Seq<char>) -> Option<Seq<DiagnosticTag>> {
    let t = (if contains_text(title, "UNUSED"@) {
        seq![DiagnosticTag::UNNECESSARY]
    } else {
        Seq::empty()
    }) + (if contains_text(title, "DEPRECATED"@) {
        seq![DiagnosticTag::DEPRECATED]
    } else {
        Seq::empty()
    });
    if t.len() == 0 {
        None
    } else {
        Some(t)
    }
}

/// The title names an error: a syntax, parse, type, import or module problem,
/// something unfinished, missing or not found.
pub open spec fn names_error(title: Seq<char>) -> bool {
    contains_text(title, "SYNTAX"@) || contains_text(title, "PARSE"@) || contains_text(title, "UNFINISHED"@)
        || contains_text(title, "TYPE"@) || contains_text(title, "MISMATCH"@) || contains_text(title, "IMPORT"@)
        || contains_text(title, "MODULE"@) || contains_text(title, "MISSING"@) || contains_text(title, "NOT FOUND"@)
}

/// The title names a warning: something unused, a style matter, a deprecation.
pub open spec fn names_warning(title: Seq<char>) -> bool {
    contains_text(title, "UNUSED"@) || contains_text(title, "STYLE"@) || contains_text(title, "DEPRECATED"@)
}

/// Severity by title: an error word wins over every other word; otherwise a
/// warning word gives a warning, and a hint or info word information; a
/// title with none of them is an error.  No problem is a mere hint.
pub proof fn law_severity_by_title(title: Seq<char>)
    ensures
        names_error(title) ==> severity_of(title) == DiagnosticSeverity::ERROR,
        !names_error(title) && names_warning(title) ==> severity_of(title) == DiagnosticSeverity::WARNING,
        !names_error(title) && !names_warning(title) && (contains_text(title, "HINT"@) || contains_text(
            title,
            "INFO"@,
        )) ==> severity_of(title) == DiagnosticSeverity::INFORMATION,
        !names_error(title) && !names_warning(title) && !contains_text(title, "HINT"@) && !contains_text(
            title,
            "INFO"@,
        ) ==> severity_of(title) == DiagnosticSeverity::ERROR,
        severity_of(title) != DiagnosticSeverity::HINT,
{
}

/// Tags by title: "unnecessary" exactly for an unused thing and
/// "deprecated" exactly for a deprecation, in that order; no tags at all
/// rather than an empty list.
pub proof fn law_tags_by_title(title: Seq<char>)
    ensures
        tags_of(title) is None <==> !contains_text(title, "UNUSED"@) && !contains_text(title, "DEPRECATED"@),
        tags_of(title) matches Some(t) ==> {
            &&& t.len() >= 1
            &&& t.contains(DiagnosticTag::UNNECESSARY) <==> contains_text(title, "UNUSED"@)
            &&& t.contains(DiagnosticTag::DEPRECATED) <==> contains_text(title, "DEPRECATED"@)
            &&& contains_text(title, "UNUSED"@) ==> t[0] == DiagnosticTag::UNNECESSARY
            &&& t.len() == (if contains_text(title, "UNUSED"@) { 1int } else { 0 }) + (if contains_text(
                title,
                "DEPRECATED"@,
            ) {
                1int
            } else {
                0
            })
        },
{
    if let Some(t) = tags_of(title) {
        if contains_text(title, "UNUSED"@) && contains_text(title, "DEPRECATED"@) {
            assert(t[1] == DiagnosticTag::DEPRECATED);
        } else if contains_text(title, "UNUSED"@) {
            assert(t[0] == DiagnosticTag::UNNECESSARY);
        } else {
            assert(t[0] == DiagnosticTag::DEPRECATED);
        }
    }
}

/// A compiler region (one-based) as an editor range (zero-based); an end
/// before the start becomes one character after the start.
pub open spec fn region_range(region: Region) -> Range {
    let start = Position {
        line: if region.start.line > 0 { (region.start.line - 1) as u32 } else { 0 },
        character: if region.start.column > 0 { (region.start.column - 1) as u32 } else { 0 },
    };
    let end = Position {
        line: if region.end.line > 0 { (region.end.line - 1) as u32 } else { 0 },
        character: if region.end.column > 0 { (region.end.column - 1) as u32 } else { 0 },
    };
    if end.line < start.line || (end.line == start.line && end.character < start.character) {
        Range { start, end: Position { line: start.line, character: (start.character + 1) as u32 } }
    } else {
        Range { start, end }
    }
}

/// A region's start line or column of 0 (below the compiler's one-based
/// numbering) is read as the first line or column; the range's start is
/// never past the region's.
pub proof fn law_region_start_clamped(region: Region)
    ensures
        region.start.line == 0 ==> region_range(region).start.line == 0,
        region.start.column == 0 ==> region_range(region).start.character == 0,
        region_range(region).start.line <= region.start.line,
        region_range(region).start.character <= region.start.column,
        region.start.line >= 1 ==> region_range(region).start.line == region.start.line - 1,
        region.start.column >= 1 ==> region_range(region).start.character == region.start.column - 1,
{
}

/// A compiler region becomes the editor range one line and one column
/// lower at both ends: a region that ends where or after it starts keeps its
/// end (a multi-line region ends on its last line), and a region whose end
/// lies before its start becomes the one character at its start.
pub proof fn law_region_range(region: Region)
    requires
        region.start.line >= 1,
        region.start.column >= 1,
        region.end.line >= 1,
        region.end.column >= 1,
    ensures
        ({
            let r = region_range(region);
            &&& r.start.line == region.start.line - 1
            &&& r.start.character == region.start.column - 1
            &&& (region.end.line > region.start.line || (region.end.line == region.start.line
                && region.end.column >= region.start.column)) ==> r.end.line == region.end.line - 1
                && r.end.character == region.end.column - 1
            &&& (region.end.line < region.start.line || (region.end.line == region.start.line
                && region.end.column < region.start.column)) ==> r.end.line == region.start.line - 1
                && r.end.character == region.start.column
        }),
{
}

/// The diagnostic of a problem.
pub open spec fn problem_model(p: Problem) -> DiagnosticModel {
    DiagnosticModel {
        range: region_range(p.region),
        severity: Some(severity_of(p.title@)),
        code: None,
        source: Some("gren-compiler"@),
        message: p.title@ + ": "@ + join_sep(string_texts(p.message@), '\n'),
        tags: tags_of(p.title@),
    }
}

/// The diagnostic of a problem that could not be placed.
pub open spec fn fallback_model(p: Problem) -> DiagnosticModel {
    DiagnosticModel {
        range: Range { start: Position { line: 0, character: 0 }, end: Position { line: 0, character: 0 } },
        severity: Some(DiagnosticSeverity::ERROR),
        code: None,
        source: Some("gren-compiler"@),
        message: p.title@ + ": "@ + join_sep(string_texts(p.message@), ' '),
        tags: None,
    }
}

/// The diagnostic of an error that concerns a whole file or project.
pub open spec fn general_model(title: Seq<char>, message: Seq<char>) -> DiagnosticModel {
    DiagnosticModel {
        range: Range { start: Position { line: 0, character: 0 }, end: Position { line: 0, character: 0 } },
        severity: Some(DiagnosticSeverity::ERROR),
        code: None,
        source: Some("gren-compiler"@),
        message: title + ": "@ + message,
        tags: None,
    }
}

/// The URL text `url::Url::from_file_path` makes of a path, or `None` when it
/// refuses the path (a relative one, for instance).
pub uninterp spec fn file_url_of(path: Seq<char>) -> Option<Seq<char>>;

/// `url::Url::from_file_path`, then the URL's text.  Stated: the result is the
/// crate's verdict on the path, a function of the path alone.
#[verifier::external_body]
pub(crate) fn file_url(path: &str) -> (r: Option<String>)
    ensures
        r is Some <==> file_url_of(path@) is Some,
        r matches Some(u) ==> file_url_of(path@) == Some(u@),
{
    url::Url::from_file_path(path).ok().map(|u| u.to_string())
}

/// The path a reported path stands for: itself when absolute, else inside
/// the project root.
pub open spec fn absolute_path(root: Seq<char>, path: Seq<char>) -> Seq<char> {
    if path.len() > 0 && path[0] == '/' {
        path
    } else {
        joined(root, path)
    }
}

/// The URIs and diagnostics of the first `n` compile errors, or `None` when a
/// path has no URI.
pub open spec fn errors_model(root: Seq<char>, errors: Seq<CompileError>, n: int) -> Option<
    Seq<(Seq<char>, Seq<DiagnosticModel>)>,
>
    decreases n,
{
    if n <= 0 {
        Some(Seq::empty())
    } else {
        match errors_model(root, errors, n - 1) {
            None => None,
            Some(g) => match file_url_of(absolute_path(root, errors[n - 1].path@)) {
                None => None,
                Some(u) => Some(
                    add_to_group(
                        g,
                        u,
                        errors[n - 1].problems@.map_values(|p: Problem| problem_model(p)),
                    ),
                ),
            },
        }
    }
}

/// What a compiler report becomes, or `None` when a path has no URI.
pub open spec fn output_model(root: Seq<char>, output: CompilerOutput) -> Option<
    Seq<(Seq<char>, Seq<DiagnosticModel>)>,
> {
    match output {
        CompilerOutput::CompileErrors { errors } => errors_model(root, errors@, errors@.len() as int),
        CompilerOutput::GeneralError { title, path, message } => {
            let u = if path@.len() == 0 {
                file_url_of(root)
            } else {
                file_url_of(absolute_path(root, path@))
            };
            match u {
                None => None,
                Some(u) => Some(seq![(u, seq![general_model(title@, message@)])]),
            }
        },
    }
}

/// Why compiler output could not be turned into diagnostics.
#[derive(Debug, Clone, PartialEq, Eq, Structural)]
pub enum DiagnosticsError {
    /// A reported path has no file URI.
    InvalidPath,
}

/// The source name given to compiler diagnostics.
fn compiler_source() -> (r: Option<String>)
    ensures
        opt_text(r) == Some("gren-compiler"@),
{
    Some("gren-compiler".to_owned())
}

fn origin() -> (r: Range)
    ensures
        r == (Range { start: Position { line: 0, character: 0 }, end: Position { line: 0, character: 0 } }),
{
    Range { start: Position { line: 0, character: 0 }, end: Position { line: 0, character: 0 } }
}

/// `title: message`.
fn titled(title: &str, message: &str) -> (r: String)
    ensures
        r@ == title@ + ": "@ + message@,
{
    let mut m = title.to_owned();
    m.append(": ");
    m.append(message);
    m
}

impl DiagnosticsMap {
    pub fn new() -> (r: DiagnosticsMap)
        ensures
            map_model(r).len() == 0,
    {
        let r = DiagnosticsMap { files: Vec::new() };
        assert(map_model(r) =~= Seq::<(Seq<char>, Seq<DiagnosticModel>)>::empty());
        r
    }

    /// The diagnostics of `uri`, if it has a group.
    pub fn get(&self, uri: &str) -> (r: Option<&Vec<Diagnostic>>)
        ensures
            uri_index(map_model(*self), uri@) == -1 ==> r is None,
            uri_index(map_model(*self), uri@) >= 0 ==> (r matches Some(v) && diagnostic_models(v@)
                == map_model(*self)[uri_index(map_model(*self), uri@)].1),
    {
        proof {
            lemma_uri_index(map_model(*self), uri@);
        }
        match self.find(uri) {
            Some(j) => Some(&self.files[j].diagnostics),
            None => None,
        }
    }

    /// How many files have a group.
    pub fn len(&self) -> (r: usize)
        ensures
            r == map_model(*self).len(),
    {
        self.files.len()
    }

    fn find(&self, uri: &str) -> (r: Option<usize>)
        ensures
            r matches Some(j) ==> j == uri_index(map_model(*self), uri@),
            r is None ==> uri_index(map_model(*self), uri@) == -1,
    {
        let ghost g = map_model(*self);
        let mut k: usize = self.files.len();
        assert(g.take(g.len() as int) =~= g);
        while k > 0
            invariant
                0 <= k <= self.files@.len(),
                g == map_model(*self),
                uri_index(g, uri@) == uri_index(g.take(k as int), uri@),
            decreases k,
        {
            assert(g.take(k as int).drop_last() =~= g.take(k - 1));
            if str_equal(self.files[k - 1].uri.as_str(), uri) {
                return Some(k - 1);
            }
            k = k - 1;
        }
        None
    }

    /// Adds `ds` to the group of `uri` (see `add_to_group`).
    pub fn extend(&mut self, uri: String, ds: Vec<Diagnostic>)
        ensures
            map_model(*final(self)) == add_to_group(map_model(*old(self)), uri@, diagnostic_models(ds@)),
    {
        let ghost g = map_model(*self);
        proof {
            lemma_uri_index(g, uri@);
        }
        match self.find(uri.as_str()) {
            Some(j) => {
                let mut entry = self.files.remove(j);
                let mut more = ds;
                let ghost old_ds = entry.diagnostics@;
                let ghost new_ds = more@;
                entry.diagnostics.append(&mut more);
                assert(diagnostic_models(entry.diagnostics@) =~= diagnostic_models(old_ds)
                    + diagnostic_models(new_ds));
                self.files.insert(j, entry);
                assert(map_model(*self) =~= add_to_group(g, uri@, diagnostic_models(new_ds)));
            },
            None => {
                let ghost d = ds@;
                self.files.push(FileDiagnostics { uri, diagnostics: ds });
                assert(map_model(*self) =~= g.push((uri@, diagnostic_models(d))));
            },
        }
    }

    /// Makes `ds` the group of `uri` (see `put_group`).
    pub fn insert(&mut self, uri: String, ds: Vec<Diagnostic>)
        ensures
            map_model(*final(self)) == put_group(map_model(*old(self)), uri@, diagnostic_models(ds@)),
    {
        let ghost g = map_model(*self);
        let ghost d = ds@;
        proof {
            lemma_uri_index(g, uri@);
        }
        match self.find(uri.as_str()) {
            Some(j) => {
                self.files.set(j, FileDiagnostics { uri, diagnostics: ds });
                assert(map_model(*self) =~= put_group(g, uri@, diagnostic_models(d)));
            },
            None => {
                self.files.push(FileDiagnostics { uri, diagnostics: ds });
                assert(map_model(*self) =~= g.push((uri@, diagnostic_models(d))));
            },
        }
    }
}

/// Turns the compiler's reports into diagnostics, for a project at a root.
pub struct DiagnosticsConverter {
    pub project_root: String,
}

impl DiagnosticsConverter {
    pub fn new(project_root: String) -> (r: DiagnosticsConverter)
        ensures
            r.project_root == project_root,
    {
        DiagnosticsConverter { project_root }
    }

    pub fn set_project_root(&mut self, project_root: String)
        ensures
            final(self).project_root == project_root,
    {
        self.project_root = project_root;
    }

    pub fn project_root(&self) -> (r: &str)
        ensures
            r@ == self.project_root@,
    {
        self.project_root.as_str()
    }

    /// The severity of a problem with this title.
    pub fn determine_severity(&self, title: &str) -> (r: DiagnosticSeverity)
        ensures
            r == severity_of(title@),
    {
        if str_contains(title, "SYNTAX") || str_contains(title, "PARSE") || str_contains(
            title,
            "UNFINISHED",
        ) || str_contains(title, "TYPE") || str_contains(title, "MISMATCH") || str_contains(
            title,
            "IMPORT",
        ) || str_contains(title, "MODULE") || str_contains(title, "MISSING") || str_contains(
            title,
            "NOT FOUND",
        ) {
            DiagnosticSeverity::ERROR
        } else if str_contains(title, "UNUSED") || str_contains(title, "STYLE") || str_contains(
            title,
            "DEPRECATED",
        ) {
            DiagnosticSeverity::WARNING
        } else if str_contains(title, "HINT") || str_contains(title, "INFO") {
            DiagnosticSeverity::INFORMATION
        } else {
            DiagnosticSeverity::ERROR
        }
    }

    /// The tags of a problem with this title.
    pub fn determine_tags(&self, title: &str) -> (r: Option<Vec<DiagnosticTag>>)
        ensures
            match r {
                Some(t) => tags_of(title@) == Some(t@),
                None => tags_of(title@) is None,
            },
    {
        let mut tags: Vec<DiagnosticTag> = Vec::new();
        let unused = str_contains(title, "UNUSED");
        let deprecated = str_contains(title, "DEPRECATED");
        if unused {
            tags.push(DiagnosticTag::UNNECESSARY);
        }
        if deprecated {
            tags.push(DiagnosticTag::DEPRECATED);
        }
        proof {
            let t = (if unused { seq![DiagnosticTag::UNNECESSARY] } else { Seq::empty() }) + (if deprecated {
                seq![DiagnosticTag::DEPRECATED]
            } else {
                Seq::empty()
            });
            assert(tags@ =~= t);
        }
        if tags.len() == 0 {
            None
        } else {
            Some(tags)
        }
    }

    /// A compiler region as an editor range.
    pub fn gren_region_to_lsp_range(&self, region: &Region) -> (r: Result<Range, DiagnosticsError>)
        ensures
            r == Ok::<Range, DiagnosticsError>(region_range(*region)),
    {
        let start = Position {
            line: region.start.line.saturating_sub(1),
            character: region.start.column.saturating_sub(1),
        };
        let end = Position {
            line: region.end.line.saturating_sub(1),
            character: region.end.column.saturating_sub(1),
        };
        let end = if end.line < start.line || (end.line == start.line && end.character
            < start.character) {
            Position { line: start.line, character: start.character + 1 }
        } else {
            end
        };
        Ok(Range { start, end })
    }

    /// The diagnostic of a problem.
    pub fn problem_to_diagnostic(&self, problem: &Problem) -> (r: Result<Diagnostic, DiagnosticsError>)
        ensures
            r matches Ok(d) && diagnostic_model(d) == problem_model(*problem),
    {
        let range = match self.gren_region_to_lsp_range(&problem.region) {
            Ok(r) => r,
            Err(e) => return Err(e),
        };
        let severity = self.determine_severity(problem.title.as_str());
        let joined_message = join_strings(&problem.message, '\n');
        let message = titled(problem.title.as_str(), joined_message.as_str());
        Ok(
            Diagnostic {
                range,
                severity: Some(severity),
                code: None,
                source: compiler_source(),
                message,
                tags: self.determine_tags(problem.title.as_str()),
            },
        )
    }

    /// The diagnostic of a problem that could not be placed.
    pub fn create_fallback_diagnostic(&self, problem: &Problem) -> (r: Diagnostic)
        ensures
            diagnostic_model(r) == fallback_model(*problem),
    {
        let joined_message = join_strings(&problem.message, ' ');
        Diagnostic {
            range: origin(),
            severity: Some(DiagnosticSeverity::ERROR),
            code: None,
            source: compiler_source(),
            message: titled(problem.title.as_str(), joined_message.as_str()),
            tags: None,
        }
    }

    /// The URI of a reported path.
    pub fn path_to_uri(&self, path: &str) -> (r: Result<String, DiagnosticsError>)
        ensures
            match file_url_of(absolute_path(self.project_root@, path@)) {
                Some(u) => r matches Ok(s) && s@ == u,
                None => r == Err::<String, DiagnosticsError>(DiagnosticsError::InvalidPath),
            },
    {
        let p = chars_of(path);
        let abs = if p.len() > 0 && p[0] == '/' {
            path.to_owned()
        } else {
            let mut a = chars_of(self.project_root.as_str());
            let n = a.len();
            if n > 0 && a[n - 1] != '/' {
                a.push('/');
            }
            let mut k: usize = 0;
            let ghost start = a@;
            while k < p.len()
                invariant
                    0 <= k <= p@.len(),
                    a@ == start + p@.take(k as int),
                decreases p.len() - k,
            {
                a.push(p[k]);
                k = k + 1;
                assert(a@ =~= start + p@.take(k as int));
            }
            assert(p@.take(p@.len() as int) =~= p@);
            assert(a@ =~= absolute_path(self.project_root@, path@));
            string_from_chars(a.as_slice())
        };
        match file_url(abs.as_str()) {
            Some(u) => Ok(u),
            None => Err(DiagnosticsError::InvalidPath),
        }
    }

    /// The diagnostics of the problems of one module, added to its file's group.
    pub fn process_compile_error(&self, error: &CompileError, map: &mut DiagnosticsMap) -> (r: Result<
        (),
        DiagnosticsError,
    >)
        ensures
            match file_url_of(absolute_path(self.project_root@, error.path@)) {
                Some(u) => r is Ok && map_model(*final(map)) == add_to_group(
                    map_model(*old(map)),
                    u,
                    error.problems@.map_values(|p: Problem| problem_model(p)),
                ),
                None => r is Err && *final(map) == *old(map),
            },
    {
        let uri = match self.path_to_uri(error.path.as_str()) {
            Ok(u) => u,
            Err(e) => return Err(e),
        };
        let mut ds: Vec<Diagnostic> = Vec::new();
        let mut i: usize = 0;
        while i < error.problems.len()
            invariant
                0 <= i <= error.problems@.len(),
                diagnostic_models(ds@) == error.problems@.take(i as int).map_values(
                    |p: Problem| problem_model(p),
                ),
            decreases error.problems.len() - i,
        {
            let d = match self.problem_to_diagnostic(&error.problems[i]) {
                Ok(d) => d,
                Err(_) => self.create_fallback_diagnostic(&error.problems[i]),
            };
            let ghost before = ds@;
            ds.push(d);
            proof {
                let f = |p: Problem| problem_model(p);
                assert(error.problems@.take(i + 1).map_values(f) =~= error.problems@.take(
                    i as int,
                ).map_values(f).push(f(error.problems@[i as int])));
                assert(diagnostic_models(ds@) =~= diagnostic_models(before).push(
                    diagnostic_model(d),
                ));
            }
            i = i + 1;
        }
        assert(error.problems@.take(error.problems@.len() as int) =~= error.problems@);
        map.extend(uri, ds);
        Ok(())
    }

    /// The diagnostics of a compiler report, grouped by file.
    pub fn convert_to_diagnostics(&self, output: &CompilerOutput) -> (r: Result<
        DiagnosticsMap,
        DiagnosticsError,
    >)
        ensures
            match output_model(self.project_root@, *output) {
                Some(g) => r matches Ok(m) && map_model(m) == g,
                None => r is Err,
            },
    {
        let mut map = DiagnosticsMap::new();
        match output {
            CompilerOutput::CompileErrors { errors } => {
                let mut i: usize = 0;
                while i < errors.len()
                    invariant
                        0 <= i <= errors@.len(),
                        errors_model(self.project_root@, errors@, i as int) == Some(map_model(map)),
                        output_model(self.project_root@, *output) == errors_model(
                            self.project_root@,
                            errors@,
                            errors@.len() as int,
                        ),
                    decreases errors.len() - i,
                {
                    match self.process_compile_error(&errors[i], &mut map) {
                        Ok(()) => {},
                        Err(e) => {
                            proof {
                                assert(errors_model(self.project_root@, errors@, i + 1) is None);
                                lemma_errors_model_stays_none(
                                    self.project_root@,
                                    errors@,
                                    i + 1,
                                    errors@.len() as int,
                                );
                                assert(output_model(self.project_root@, *output) == errors_model(
                                    self.project_root@,
                                    errors@,
                                    errors@.len() as int,
                                ));
                            }
                            return Err(e);
                        },
                    }
                    i = i + 1;
                }
            },
            CompilerOutput::GeneralError { title, path, message } => {
                let d = Diagnostic {
                    range: origin(),
                    severity: Some(DiagnosticSeverity::ERROR),
                    code: None,
                    source: compiler_source(),
                    message: titled(title.as_str(), message.as_str()),
                    tags: None,
                };
                let uri = if path.as_str().is_empty() {
                    match file_url(self.project_root.as_str()) {
                        Some(u) => u,
                        None => return Err(DiagnosticsError::InvalidPath),
                    }
                } else {
                    match self.path_to_uri(path.as_str()) {
                        Ok(u) => u,
                        Err(e) => return Err(e),
                    }
                };
                let mut ds: Vec<Diagnostic> = Vec::new();
                ds.push(d);
                assert(diagnostic_models(ds@) =~= seq![general_model(title@, message@)]);
                proof {
                    lemma_uri_index(map_model(map), uri@);
                }
                map.extend(uri, ds);
                assert(map_model(map) =~= seq![(uri@, seq![general_model(title@, message@)])]);
            },
        }
        Ok(map)
    }
}

/// Once a path fails, the later reports fail too.
proof fn lemma_errors_model_stays_none(root: Seq<char>, errors: Seq<CompileError>, i: int, n: int)
    requires
        0 < i <= n,
        errors_model(root, errors, i) is None,
    ensures
        errors_model(root, errors, n) is None,
    decreases n - i,
{
    if i < n {
        lemma_errors_model_stays_none(root, errors, i + 1, n);
    }
}

/// The rank of a severity: errors highest.
pub open spec fn severity_rank(s: DiagnosticSeverity) -> int {
    match s {
        DiagnosticSeverity::ERROR => 4,
        DiagnosticSeverity::WARNING => 3,
        DiagnosticSeverity::INFORMATION => 2,
        DiagnosticSeverity::HINT => 1,
    }
}

/// The rank of a diagnostic; one without severity ranks as an error.
pub open spec fn diagnostic_rank(d: DiagnosticModel) -> int {
    match d.severity {
        Some(s) => severity_rank(s),
        None => 4,
    }
}

/// The diagnostics at least as serious as `min`, in order.
pub open spec fn at_least(ds: Seq<DiagnosticModel>, min: DiagnosticSeverity) -> Seq<DiagnosticModel>
    decreases ds.len(),
{
    if ds.len() == 0 {
        Seq::empty()
    } else {
        let r = at_least(ds.drop_last(), min);
        if diagnostic_rank(ds.last()) >= severity_rank(min) {
            r.push(ds.last())
        } else {
            r
        }
    }
}

/// Each group kept to its diagnostics at least as serious as `min`; groups
/// left empty are dropped.
pub open spec fn filtered_groups(g: Seq<(Seq<char>, Seq<DiagnosticModel>)>, min: DiagnosticSeverity) -> Seq<
    (Seq<char>, Seq<DiagnosticModel>),
>
    decreases g.len(),
{
    if g.len() == 0 {
        Seq::empty()
    } else {
        let r = filtered_groups(g.drop_last(), min);
        let f = at_least(g.last().1, min);
        if f.len() > 0 {
            r.push((g.last().0, f))
        } else {
            r
        }
    }
}

/// How many diagnostics of the groups have severity `s` (none counts as an error).
pub open spec fn count_severity(g: Seq<(Seq<char>, Seq<DiagnosticModel>)>, s: DiagnosticSeverity) -> nat
    decreases g.len(),
{
    if g.len() == 0 {
        0
    } else {
        count_severity(g.drop_last(), s) + count_in(g.last().1, s)
    }
}

pub open spec fn count_in(ds: Seq<DiagnosticModel>, s: DiagnosticSeverity) -> nat
    decreases ds.len(),
{
    if ds.len() == 0 {
        0
    } else {
        count_in(ds.drop_last(), s) + if (match ds.last().severity {
            Some(x) => x,
            None => DiagnosticSeverity::ERROR,
        }) == s {
            1nat
        } else {
            0nat
        }
    }
}

/// How many diagnostics the groups hold.
pub open spec fn total_count(g: Seq<(Seq<char>, Seq<DiagnosticModel>)>) -> nat
    decreases g.len(),
{
    if g.len() == 0 {
        0
    } else {
        total_count(g.drop_last()) + g.last().1.len()
    }
}

proof fn lemma_count_in_sums(ds: Seq<DiagnosticModel>)
    ensures
        count_in(ds, DiagnosticSeverity::ERROR) + count_in(ds, DiagnosticSeverity::WARNING) + count_in(
            ds,
            DiagnosticSeverity::INFORMATION,
        ) + count_in(ds, DiagnosticSeverity::HINT) == ds.len(),
    decreases ds.len(),
{
    if ds.len() > 0 {
        lemma_count_in_sums(ds.drop_last());
    }
}

/// Every diagnostic is counted under exactly one severity (one without a
/// severity as an error): the four counts add up to the number of diagnostics.
pub proof fn law_severity_counts_sum_to_total(g: Seq<(Seq<char>, Seq<DiagnosticModel>)>)
    ensures
        count_severity(g, DiagnosticSeverity::ERROR) + count_severity(g, DiagnosticSeverity::WARNING)
            + count_severity(g, DiagnosticSeverity::INFORMATION) + count_severity(
            g,
            DiagnosticSeverity::HINT,
        ) == total_count(g),
    decreases g.len(),
{
    if g.len() > 0 {
        law_severity_counts_sum_to_total(g.drop_last());
        lemma_count_in_sums(g.last().1);
    }
}

/// The number of problems the first `n` errors of a report hold.
pub open spec fn problem_total(errors: Seq<CompileError>, n: int) -> nat
    decreases n,
{
    if n <= 0 {
        0
    } else {
        problem_total(errors, n - 1) + errors[n - 1].problems@.len()
    }
}

proof fn lemma_total_update(g: Seq<(Seq<char>, Seq<DiagnosticModel>)>, j: int, x: (Seq<char>, Seq<DiagnosticModel>))
    requires
        0 <= j < g.len(),
    ensures
        total_count(g.update(j, x)) == total_count(g) - g[j].1.len() + x.1.len(),
    decreases g.len(),
{
    let h = g.update(j, x);
    if j == g.len() - 1 {
        assert(h.drop_last() =~= g.drop_last());
    } else {
        lemma_total_update(g.drop_last(), j, x);
        assert(h.drop_last() =~= g.drop_last().update(j, x));
    }
}

/// A compiler report's diagnostics: one group per file, no file twice, and
/// as many diagnostics in all as the report has problems.
pub proof fn law_report_groups(root: Seq<char>, errors: Seq<CompileError>, n: int)
    requires
        0 <= n <= errors.len(),
        errors_model(root, errors, n) is Some,
    ensures
        distinct_uris(errors_model(root, errors, n)->0),
        total_count(errors_model(root, errors, n)->0) == problem_total(errors, n),
    decreases n,
{
    if n > 0 {
        law_report_groups(root, errors, n - 1);
        let g = errors_model(root, errors, n - 1)->0;
        let u = file_url_of(absolute_path(root, errors[n - 1].path@))->0;
        let ds = errors[n - 1].problems@.map_values(|p: Problem| problem_model(p));
        lemma_add_keeps_distinct(g, u, ds);
        lemma_uri_index(g, u);
        let j = uri_index(g, u);
        if j >= 0 {
            lemma_total_update(g, j, (u, g[j].1 + ds));
        } else {
            assert(g.push((u, ds)).drop_last() =~= g);
        }
    }
}

/// The groups of `new` put over those of `base`, in order.
pub open spec fn merged_groups(
    base: Seq<(Seq<char>, Seq<DiagnosticModel>)>,
    new: Seq<(Seq<char>, Seq<DiagnosticModel>)>,
) -> Seq<(Seq<char>, Seq<DiagnosticModel>)>
    decreases new.len(),
{
    if new.len() == 0 {
        base
    } else {
        put_group(merged_groups(base, new.drop_last()), new.last().0, new.last().1)
    }
}

/// The groups whose URI is not among `uris`.
pub open spec fn cleared_groups(g: Seq<(Seq<char>, Seq<DiagnosticModel>)>, uris: Seq<Seq<char>>) -> Seq<
    (Seq<char>, Seq<DiagnosticModel>),
>
    decreases g.len(),
{
    if g.len() == 0 {
        Seq::empty()
    } else {
        let r = cleared_groups(g.drop_last(), uris);
        if uris.contains(g.last().0) {
            r
        } else {
            r.push(g.last())
        }
    }
}

fn copy_text(o: &Option<String>) -> (r: Option<String>)
    ensures
        opt_text(r) == opt_text(*o),
{
    match o {
        Some(t) => Some(t.clone()),
        None => None,
    }
}

/// A copy of a diagnostic.
pub fn copy_diagnostic(d: &Diagnostic) -> (r: Diagnostic)
    ensures
        diagnostic_model(r) == diagnostic_model(*d),
{
    let tags = match &d.tags {
        Some(t) => {
            let mut v: Vec<DiagnosticTag> = Vec::new();
            let mut i: usize = 0;
            while i < t.len()
                invariant
                    0 <= i <= t@.len(),
                    v@ == t@.take(i as int),
                decreases t.len() - i,
            {
                v.push(t[i]);
                i = i + 1;
                assert(v@ =~= t@.take(i as int));
            }
            assert(t@.take(t@.len() as int) =~= t@);
            Some(v)
        },
        None => None,
    };
    Diagnostic {
        range: d.range,
        severity: d.severity,
        code: copy_text(&d.code),
        source: copy_text(&d.source),
        message: d.message.clone(),
        tags,
    }
}

fn rank(s: DiagnosticSeverity) -> (r: u8)
    ensures
        r == severity_rank(s),
{
    match s {
        DiagnosticSeverity::ERROR => 4,
        DiagnosticSeverity::WARNING => 3,
        DiagnosticSeverity::INFORMATION => 2,
        DiagnosticSeverity::HINT => 1,
    }
}

/// The diagnostics at least as serious as `min_severity`; files left with
/// none are dropped.
pub fn filter_by_severity(diagnostics: &DiagnosticsMap, min_severity: DiagnosticSeverity) -> (r:
    DiagnosticsMap)
    ensures
        map_model(r) == filtered_groups(map_model(*diagnostics), min_severity),
{
    let ghost g = map_model(*diagnostics);
    let min = rank(min_severity);
    let mut out = DiagnosticsMap::new();
    let mut i: usize = 0;
    assert(g.take(0) =~= Seq::<(Seq<char>, Seq<DiagnosticModel>)>::empty());
    while i < diagnostics.files.len()
        invariant
            0 <= i <= diagnostics.files@.len(),
            g == map_model(*diagnostics),
            min == severity_rank(min_severity),
            map_model(out) == filtered_groups(g.take(i as int), min_severity),
        decreases diagnostics.files.len() - i,
    {
        let group = &diagnostics.files[i];
        let ghost ds = diagnostic_models(group.diagnostics@);
        let mut kept: Vec<Diagnostic> = Vec::new();
        let mut k: usize = 0;
        assert(ds.take(0) =~= Seq::<DiagnosticModel>::empty());
        while k < group.diagnostics.len()
            invariant
                0 <= k <= group.diagnostics@.len(),
                ds == diagnostic_models(group.diagnostics@),
                min == severity_rank(min_severity),
                diagnostic_models(kept@) == at_least(ds.take(k as int), min_severity),
            decreases group.diagnostics.len() - k,
        {
            let d = &group.diagnostics[k];
            assert(ds.take(k + 1).drop_last() =~= ds.take(k as int));
            let r = match d.severity {
                Some(s) => rank(s),
                None => 4,
            };
            if r >= min {
                let c = copy_diagnostic(d);
                let ghost before = kept@;
                kept.push(c);
                assert(diagnostic_models(kept@) =~= diagnostic_models(before).push(
                    diagnostic_model(c),
                ));
            }
            k = k + 1;
        }
        assert(ds.take(ds.len() as int) =~= ds);
        assert(g.take(i + 1).drop_last() =~= g.take(i as int));
        if kept.len() > 0 {
            let ghost before = map_model(out);
            let ghost kd = kept@;
            out.files.push(FileDiagnostics { uri: group.uri.clone(), diagnostics: kept });
            assert(map_model(out) =~= before.push((group.uri@, diagnostic_models(kd))));
        }
        i = i + 1;
    }
    assert(g.take(g.len() as int) =~= g);
    out
}

proof fn lemma_count_bound(g: Seq<(Seq<char>, Seq<DiagnosticModel>)>, s: DiagnosticSeverity)
    ensures
        count_severity(g, s) <= total_count(g),
    decreases g.len(),
{
    if g.len() > 0 {
        lemma_count_bound(g.drop_last(), s);
        lemma_count_in_bound(g.last().1, s);
    }
}

proof fn lemma_count_in_bound(ds: Seq<DiagnosticModel>, s: DiagnosticSeverity)
    ensures
        count_in(ds, s) <= ds.len(),
    decreases ds.len(),
{
    if ds.len() > 0 {
        lemma_count_in_bound(ds.drop_last(), s);
    }
}

proof fn lemma_total_prefix(g: Seq<(Seq<char>, Seq<DiagnosticModel>)>, i: int)
    requires
        0 <= i <= g.len(),
    ensures
        total_count(g.take(i)) <= total_count(g),
    decreases g.len() - i,
{
    if i < g.len() {
        lemma_total_prefix(g, i + 1);
        assert(g.take(i + 1).drop_last() =~= g.take(i));
    } else {
        assert(g.take(i) =~= g);
    }
}

/// How many diagnostics there are of each severity: errors (including those
/// without severity), warnings, information, hints.
pub fn count_by_severity(diagnostics: &DiagnosticsMap) -> (r: (usize, usize, usize, usize))
    requires
        total_count(map_model(*diagnostics)) <= usize::MAX,
    ensures
        r.0 == count_severity(map_model(*diagnostics), DiagnosticSeverity::ERROR),
        r.1 == count_severity(map_model(*diagnostics), DiagnosticSeverity::WARNING),
        r.2 == count_severity(map_model(*diagnostics), DiagnosticSeverity::INFORMATION),
        r.3 == count_severity(map_model(*diagnostics), DiagnosticSeverity::HINT),
{
    let ghost g = map_model(*diagnostics);
    let mut errors: usize = 0;
    let mut warnings: usize = 0;
    let mut info: usize = 0;
    let mut hints: usize = 0;
    let mut i: usize = 0;
    assert(g.take(0) =~= Seq::<(Seq<char>, Seq<DiagnosticModel>)>::empty());
    while i < diagnostics.files.len()
        invariant
            0 <= i <= diagnostics.files@.len(),
            g == map_model(*diagnostics),
            total_count(g) <= usize::MAX,
            errors == count_severity(g.take(i as int), DiagnosticSeverity::ERROR),
            warnings == count_severity(g.take(i as int), DiagnosticSeverity::WARNING),
            info == count_severity(g.take(i as int), DiagnosticSeverity::INFORMATION),
            hints == count_severity(g.take(i as int), DiagnosticSeverity::HINT),
        decreases diagnostics.files.len() - i,
    {
        let group = &diagnostics.files[i];
        let ghost ds = diagnostic_models(group.diagnostics@);
        assert(g.take(i + 1).drop_last() =~= g.take(i as int));
        proof {
            lemma_total_prefix(g, i + 1);
            lemma_count_bound(g.take(i + 1), DiagnosticSeverity::ERROR);
            lemma_count_bound(g.take(i + 1), DiagnosticSeverity::WARNING);
            lemma_count_bound(g.take(i + 1), DiagnosticSeverity::INFORMATION);
            lemma_count_bound(g.take(i + 1), DiagnosticSeverity::HINT);
        }
        let mut k: usize = 0;
        let ghost e0 = errors as int;
        let ghost w0 = warnings as int;
        let ghost i0 = info as int;
        let ghost h0 = hints as int;
        assert(ds.take(0) =~= Seq::<DiagnosticModel>::empty());
        while k < group.diagnostics.len()
            invariant
                0 <= k <= group.diagnostics@.len(),
                ds == diagnostic_models(group.diagnostics@),
                errors == e0 + count_in(ds.take(k as int), DiagnosticSeverity::ERROR),
                warnings == w0 + count_in(ds.take(k as int), DiagnosticSeverity::WARNING),
                info == i0 + count_in(ds.take(k as int), DiagnosticSeverity::INFORMATION),
                hints == h0 + count_in(ds.take(k as int), DiagnosticSeverity::HINT),
                e0 + count_in(ds, DiagnosticSeverity::ERROR) <= usize::MAX,
                w0 + count_in(ds, DiagnosticSeverity::WARNING) <= usize::MAX,
                i0 + count_in(ds, DiagnosticSeverity::INFORMATION) <= usize::MAX,
                h0 + count_in(ds, DiagnosticSeverity::HINT) <= usize::MAX,
            decreases group.diagnostics.len() - k,
        {
            assert(ds.take(k + 1).drop_last() =~= ds.take(k as int));
            proof {
                lemma_count_prefix(ds, k + 1, DiagnosticSeverity::ERROR);
                lemma_count_prefix(ds, k + 1, DiagnosticSeverity::WARNING);
                lemma_count_prefix(ds, k + 1, DiagnosticSeverity::INFORMATION);
                lemma_count_prefix(ds, k + 1, DiagnosticSeverity::HINT);
            }
            match group.diagnostics[k].severity {
                Some(DiagnosticSeverity::WARNING) => warnings = warnings + 1,
                Some(DiagnosticSeverity::INFORMATION) => info = info + 1,
                Some(DiagnosticSeverity::HINT) => hints = hints + 1,
                _ => errors = errors + 1,
            }
            k = k + 1;
        }
        assert(ds.take(ds.len() as int) =~= ds);
        i = i + 1;
    }
    assert(g.take(g.len() as int) =~= g);
    (errors, warnings, info, hints)
}

proof fn lemma_count_prefix(ds: Seq<DiagnosticModel>, k: int, s: DiagnosticSeverity)
    requires
        0 <= k <= ds.len(),
    ensures
        count_in(ds.take(k), s) <= count_in(ds, s),
    decreases ds.len() - k,
{
    if k < ds.len() {
        lemma_count_prefix(ds, k + 1, s);
        assert(ds.take(k + 1).drop_last() =~= ds.take(k));
    } else {
        assert(ds.take(k) =~= ds);
    }
}

/// `new`'s groups put over `base`'s (see `merged_groups`).
pub fn merge_diagnostics(base: DiagnosticsMap, new: DiagnosticsMap) -> (r: DiagnosticsMap)
    ensures
        map_model(r) == merged_groups(map_model(base), map_model(new)),
{
    let mut out = base;
    let ghost b = map_model(out);
    let ghost n = map_model(new);
    let mut rest = new.files;
    let ghost all = rest@;
    assert(n.take(0) =~= Seq::<(Seq<char>, Seq<DiagnosticModel>)>::empty());
    let mut i: usize = 0;
    let total = rest.len();
    while i < total
        invariant
            0 <= i <= total,
            total == all.len(),
            n == all.map_values(|f: FileDiagnostics| (f.uri@, diagnostic_models(f.diagnostics@))),
            rest@ == all.skip(i as int),
            map_model(out) == merged_groups(b, n.take(i as int)),
        decreases total - i,
    {
        let f = rest.remove(0);
        assert(f == all[i as int]);
        assert(rest@ =~= all.skip(i + 1));
        assert(n.take(i + 1).drop_last() =~= n.take(i as int));
        out.insert(f.uri, f.diagnostics);
        i = i + 1;
    }
    assert(n.take(total as int) =~= n);
    out
}

/// Drops the groups of the given URIs.
pub fn clear_file_diagnostics(diagnostics: &mut DiagnosticsMap, uris: &[String])
    ensures
        map_model(*final(diagnostics)) == cleared_groups(
            map_model(*old(diagnostics)),
            uris@.map_values(|u: String| u@),
        ),
{
    let ghost us = uris@.map_values(|u: String| u@);
    let ghost g = map_model(*diagnostics);
    let mut files = Vec::new();
    std::mem::swap(&mut files, &mut diagnostics.files);
    let mut kept: Vec<FileDiagnostics> = Vec::new();
    let mut rest = files;
    let ghost all = rest@;
    let total = rest.len();
    let mut i: usize = 0;
    assert(g.take(0) =~= Seq::<(Seq<char>, Seq<DiagnosticModel>)>::empty());
    while i < total
        invariant
            0 <= i <= total,
            total == all.len(),
            g == all.map_values(|f: FileDiagnostics| (f.uri@, diagnostic_models(f.diagnostics@))),
            rest@ == all.skip(i as int),
            us == uris@.map_values(|u: String| u@),
            kept@.map_values(|f: FileDiagnostics| (f.uri@, diagnostic_models(f.diagnostics@)))
                == cleared_groups(g.take(i as int), us),
        decreases total - i,
    {
        let f = rest.remove(0);
        assert(f == all[i as int]);
        assert(rest@ =~= all.skip(i + 1));
        assert(g.take(i + 1).drop_last() =~= g.take(i as int));
        let mut listed = false;
        let mut k: usize = 0;
        while k < uris.len()
            invariant
                0 <= k <= uris@.len(),
                us == uris@.map_values(|u: String| u@),
                listed <==> exists|j: int| 0 <= j < k && us[j] == f.uri@,
            decreases uris.len() - k,
        {
            assert(us[k as int] == uris@[k as int]@);
            if str_equal(uris[k].as_str(), f.uri.as_str()) {
                listed = true;
            }
            k = k + 1;
        }
        proof {
            if us.contains(f.uri@) {
                let j = choose|j: int| 0 <= j < us.len() && us[j] == f.uri@;
                assert(0 <= j < k);
            }
        }
        if !listed {
            let ghost before = kept@;
            kept.push(f);
            assert(kept@.map_values(|f: FileDiagnostics| (f.uri@, diagnostic_models(f.diagnostics@)))
                =~= before.map_values(|f: FileDiagnostics| (f.uri@, diagnostic_models(f.diagnostics@))).push(
                g[i as int],
            ));
        }
        i = i + 1;
    }
    assert(g.take(total as int) =~= g);
    diagnostics.files = kept;
}

} // verus!
