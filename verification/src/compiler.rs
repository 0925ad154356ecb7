//! What the library knows of the Gren compiler: its configuration, the
//! requests and results of a compilation, the shape of its JSON report, and
//! the module names of source files.
use vstd::prelude::*;
use std::collections::HashMap;
use crate::line_scan::{contains_text, str_contains, trim, trim_chars};
use crate::paths::{
    after_src, components, components_of, has_components_prefix, is_normal, join_sep, join_with, stem_of,
    strip_components_prefix, strip_extension, texts, without_extension,
};
use crate::text::{chars_of, string_from_chars};

verus! {

/// Configuration of the compiler interface.
#[derive(Debug, Clone)]
pub struct CompilerConfig {
    /// Path of the compiler executable.
    pub compiler_path: String,
    /// Time limit of one compiler run, in milliseconds.
    pub timeout_ms: u64,
    /// How many compilations may run at once.
    pub max_concurrent: usize,
}

impl Default for CompilerConfig {
    fn default() -> (r: Self)
        ensures
            r.compiler_path@ == "gren"@,
            r.timeout_ms == 10000,
            r.max_concurrent == 4,
    {
        CompilerConfig { compiler_path: "gren".to_owned(), timeout_ms: 10000, max_concurrent: 4 }
    }
}

impl CompilerConfig {
    /// The default configuration, with the compiler path taken from the
    /// environment's value when there is one.
    pub fn with_compiler_path(path: Option<String>) -> (r: CompilerConfig)
        ensures
            path matches Some(p) ==> r.compiler_path == p,
            path is None ==> r.compiler_path@ == "gren"@,
            r.timeout_ms == 10000,
            r.max_concurrent == 4,
    {
        let mut config = CompilerConfig::default();
        if let Some(p) = path {
            config.compiler_path = p;
        }
        config
    }

    /// Whether replacing `self` by `new` changes how many compilations may run
    /// at once (and so needs a new limit).
    pub fn concurrency_changes(&self, new: &CompilerConfig) -> (r: bool)
        ensures
            r == (self.max_concurrent != new.max_concurrent),
    {
        self.max_concurrent != new.max_concurrent
    }
}

/// A compilation request.
#[derive(Debug, Clone)]
pub struct CompileRequest {
    /// The module to compile, e.g. `Main` or `Utils.Parser`.
    pub module_name: String,
    /// The project directory, holding `gren.json`.
    pub project_root: String,
    pub include_sourcemaps: bool,
    /// Unsaved documents: path relative to the project root, and content.
    pub in_memory_documents: HashMap<String, String>,
}

/// The outcome of a compiler run.
#[derive(Debug, Clone)]
pub struct CompileResult {
    pub success: bool,
    /// The report to read diagnostics from.
    pub output: String,
    pub stderr: String,
    pub exit_code: Option<i32>,
}

/// The compiler's JSON report.
#[derive(Debug, Clone)]
pub enum CompilerOutput {
    CompileErrors { errors: Vec<CompileError> },
    GeneralError { title: String, path: String, message: String },
}

/// The problems found in one module.
#[derive(Debug, Clone)]
pub struct CompileError {
    pub path: String,
    pub name: String,
    pub problems: Vec<Problem>,
}

/// One problem of a module.
#[derive(Debug, Clone)]
pub struct Problem {
    pub title: String,
    pub region: Region,
    pub message: Vec<String>,
}

/// A region of a source file, in the compiler's one-based lines and columns.
#[derive(Debug, Clone, Copy, PartialEq, Eq, Structural)]
pub struct Region {
    pub start: Position,
    pub end: Position,
}

/// A one-based line and column.
#[derive(Debug, Clone, Copy, PartialEq, Eq, Structural)]
pub struct Position {
    pub line: u32,
    pub column: u32,
}

/// Why the compiler interface failed.
#[derive(Debug, Clone, PartialEq, Eq)]
pub enum CompilerError {
    /// The report is not JSON of the expected shape; the parser's message.
    InvalidOutput(String),
    /// The file is not inside the project root.
    NotInProject,
    /// No module name can be made of the file's path.
    NoModuleName,
    /// The compiler's `--help` run failed: its exit code (-1 when it has
    /// none) and its stderr.
    NonZeroExit { code: i32, stderr: String },
    /// The `--help` output does not mention gren.
    NotGren(String),
}

/// The arguments of the compiler run for a module: `make`, the module,
/// `--report=json`, `--output=/dev/null`, and `--sourcemaps` when asked for.
pub open spec fn make_args_of(module: Seq<char>, sourcemaps: bool) -> Seq<Seq<char>> {
    let base = seq!["make"@, module, "--report=json"@, "--output=/dev/null"@];
    if sourcemaps {
        base.push("--sourcemaps"@)
    } else {
        base
    }
}

/// The arguments of the compiler run that checks a module of a request.
pub fn make_arguments(module_name: &str, include_sourcemaps: bool) -> (r: Vec<String>)
    ensures
        r@.map_values(|a: String| a@) == make_args_of(module_name@, include_sourcemaps),
{
    let mut args: Vec<String> = Vec::new();
    args.push("make".to_owned());
    args.push(module_name.to_owned());
    args.push("--report=json".to_owned());
    args.push("--output=/dev/null".to_owned());
    if include_sourcemaps {
        args.push("--sourcemaps".to_owned());
    }
    assert(args@.map_values(|a: String| a@) =~= make_args_of(module_name@, include_sourcemaps));
    args
}

/// Whether the compiler answered its `--help` run as the Gren compiler: the
/// run succeeded and its output mentions `gren`.
pub fn availability_verdict(success: bool, exit_code: Option<i32>, stdout: String, stderr: String) -> (r:
    Result<(), CompilerError>)
    ensures
        !success ==> r == Err::<(), CompilerError>(
            CompilerError::NonZeroExit {
                code: match exit_code {
                    Some(c) => c,
                    None => -1i32,
                },
                stderr,
            },
        ),
        success && !contains_text(stdout@, "gren"@) ==> r == Err::<(), CompilerError>(
            CompilerError::NotGren(stdout),
        ),
        success && contains_text(stdout@, "gren"@) ==> r is Ok,
{
    if !success {
        let code = match exit_code {
            Some(c) => c,
            None => -1,
        };
        return Err(CompilerError::NonZeroExit { code, stderr });
    }
    if !str_contains(stdout.as_str(), "gren") {
        return Err(CompilerError::NotGren(stdout));
    }
    Ok(())
}

/// Text that is empty or white space only.
pub open spec fn is_blank(s: Seq<char>) -> bool {
    trim(s).len() == 0
}

pub fn blank(s: &str) -> (r: bool)
    ensures
        r == is_blank(s@),
{
    let c = chars_of(s);
    let t = trim_chars(c.as_slice());
    t.len() == 0
}

/// The text to read diagnostics from: the compiler writes its JSON report to
/// stderr, so stderr is taken when stdout is blank and stderr is not.
pub open spec fn diagnostic_text(stdout: Seq<char>, stderr: Seq<char>) -> Seq<char> {
    if is_blank(stdout) && !is_blank(stderr) {
        stderr
    } else {
        stdout
    }
}

impl CompileResult {
    /// The result of a `make` run, from the process's exit status and output.
    pub fn from_run(success: bool, exit_code: Option<i32>, stdout: String, stderr: String) -> (r:
        CompileResult)
        ensures
            r.success == success,
            r.exit_code == exit_code,
            r.output@ == diagnostic_text(stdout@, stderr@),
            r.stderr == stderr,
    {
        let use_stderr = blank(stdout.as_str()) && !blank(stderr.as_str());
        let output = if use_stderr {
            stderr.clone()
        } else {
            stdout
        };
        CompileResult { success, output, stderr, exit_code }
    }
}

/// Reads the compiler's report: a blank report is no report; otherwise the
/// report is what the JSON parser made of it (`parsed`), or an error carrying
/// the parser's message.
pub fn parse_compiler_output(output: &str, parsed: Result<CompilerOutput, String>) -> (r: Result<
    Option<CompilerOutput>,
    CompilerError,
>)
    ensures
        is_blank(output@) ==> r matches Ok(None),
        !is_blank(output@) ==> (match parsed {
            Ok(p) => r == Ok::<Option<CompilerOutput>, CompilerError>(Some(p)),
            Err(m) => r == Err::<Option<CompilerOutput>, CompilerError>(
                CompilerError::InvalidOutput(m),
            ),
        }),
{
    if blank(output) {
        return Ok(None);
    }
    match parsed {
        Ok(p) => Ok(Some(p)),
        Err(m) => Err(CompilerError::InvalidOutput(m)),
    }
}

/// The module name of a file: its path inside the project, without a leading
/// `src` directory and without extension, its components joined by `.`;
/// `None` when the file is not inside the project or the name is empty.
pub open spec fn module_name_of(file: Seq<char>, root: Seq<char>) -> Option<Seq<char>> {
    let fc = components_of(file);
    let rc = components_of(root);
    if !has_components_prefix(fc, rc) {
        None
    } else {
        let name = join_sep(without_extension(after_src(fc.skip(rc.len() as int))), '.');
        if name.len() == 0 {
            None
        } else {
            Some(name)
        }
    }
}

/// The parts a module name is made of: the file's components below the
/// project root, a leading `src` directory left out, the extension dropped.
pub open spec fn module_parts(file: Seq<char>, root: Seq<char>) -> Seq<Seq<char>> {
    without_extension(after_src(components_of(file).skip(components_of(root).len() as int)))
}

/// No part is empty.
pub open spec fn all_nonempty(c: Seq<Seq<char>>) -> bool {
    forall|i: int| 0 <= i < c.len() ==> (#[trigger] c[i]).len() > 0
}

proof fn lemma_kept_nonempty(ps: Seq<Seq<char>>)
    ensures
        all_nonempty(crate::paths::kept_pieces(ps)),
    decreases ps.len(),
{
    if ps.len() > 0 {
        lemma_kept_nonempty(ps.drop_last());
    }
}

proof fn lemma_module_parts_nonempty(file: Seq<char>, root: Seq<char>)
    requires
        has_components_prefix(components_of(file), components_of(root)),
    ensures
        all_nonempty(module_parts(file, root)),
{
    let ps = crate::text::pieces(file, '/');
    lemma_kept_nonempty(ps);
    let fc = components_of(file);
    assert(all_nonempty(fc)) by {
        let k = crate::paths::kept_pieces(ps);
        if file.len() > 0 && file[0] == '/' {
            assert forall|i: int| 0 <= i < fc.len() implies (#[trigger] fc[i]).len() > 0 by {
                if i > 0 {
                    assert(fc[i] == k[i - 1]);
                }
            }
        } else if ps[0] == seq!['.'] {
            assert forall|i: int| 0 <= i < fc.len() implies (#[trigger] fc[i]).len() > 0 by {
                if i > 0 {
                    assert(fc[i] == k[i - 1]);
                }
            }
        }
    }
    let rel = fc.skip(components_of(root).len() as int);
    assert(all_nonempty(rel)) by {
        assert forall|i: int| 0 <= i < rel.len() implies (#[trigger] rel[i]).len() > 0 by {
            assert(rel[i] == fc[i + components_of(root).len()]);
        }
    }
    let a = after_src(rel);
    assert(all_nonempty(a)) by {
        if rel.len() > 0 && rel[0] == seq!['s', 'r', 'c'] {
            assert forall|i: int| 0 <= i < a.len() implies (#[trigger] a[i]).len() > 0 by {
                assert(a[i] == rel[i + 1]);
            }
        }
    }
    let w = without_extension(a);
    if a.len() == 0 || !is_normal(a.last()) {
        assert(w == a);
    } else {
        let st = stem_of(a.last());
        let d = crate::completion::last_index_of(a.last(), '.');
        assert(st.len() > 0) by {
            assert(a[a.len() - 1].len() > 0);
            if d > 0 {
                lemma_last_index_bound(a.last(), '.');
                assert(st == a.last().take(d));
            }
        }
        if st == seq!['.'] && a.len() > 1 {
            assert forall|i: int| 0 <= i < w.len() implies (#[trigger] w[i]).len() > 0 by {
                assert(w[i] == a[i]);
            }
        } else {
            assert forall|i: int| 0 <= i < w.len() implies (#[trigger] w[i]).len() > 0 by {
                if i < a.len() - 1 {
                    assert(w[i] == a[i]);
                } else {
                    assert(w[i] == st);
                }
            }
        }
    }
}

proof fn lemma_last_index_bound(s: Seq<char>, c: char)
    ensures
        -1 <= crate::completion::last_index_of(s, c) < s.len(),
    decreases s.len(),
{
    if s.len() > 0 {
        lemma_last_index_bound(s.drop_last(), c);
    }
}

proof fn lemma_join_empty(c: Seq<Seq<char>>)
    requires
        all_nonempty(c),
    ensures
        join_sep(c, '.').len() == 0 <==> c.len() == 0,
    decreases c.len(),
{
    if c.len() > 1 {
        lemma_join_empty(c.drop_last());
    }
}

/// A file inside the project has no module name exactly when nothing is left
/// of its path below the root once a leading `src` and the extension are
/// taken away (the root itself, or its `src` directory).
pub proof fn law_no_module_name_iff_nothing_left(file: Seq<char>, root: Seq<char>)
    requires
        has_components_prefix(components_of(file), components_of(root)),
    ensures
        module_name_of(file, root) is None <==> module_parts(file, root).len() == 0,
        module_name_of(file, root) is Some ==> module_name_of(file, root) == Some(
            join_sep(module_parts(file, root), '.'),
        ),
{
    lemma_module_parts_nonempty(file, root);
    lemma_join_empty(module_parts(file, root));
}

/// A file has no module name exactly when it is not inside the project
/// (its components do not begin with the root's), or nothing is left of its
/// path below the root once a leading `src` and the extension are taken
/// away; `module_name_from_path` fails exactly then.
pub proof fn law_module_name_fails_exactly(file: Seq<char>, root: Seq<char>)
    ensures
        module_name_of(file, root) is None <==> (!has_components_prefix(components_of(file), components_of(root))
            || module_parts(file, root).len() == 0),
{
    if has_components_prefix(components_of(file), components_of(root)) {
        law_no_module_name_iff_nothing_left(file, root);
    }
}

proof fn lemma_last_dot(b: Seq<char>)
    ensures
        crate::completion::last_index_of(b + ".gren"@, '.') == b.len(),
{
    reveal_strlit(".gren");
    let s = b + ".gren"@;
    let s1 = s.drop_last();
    let s2 = s1.drop_last();
    let s3 = s2.drop_last();
    let s4 = s3.drop_last();
    assert(s4 =~= b.push('.'));
    assert(s.last() == 'n');
    assert(s1.last() == 'e');
    assert(s2.last() == 'r');
    assert(s3.last() == 'g');
    assert(crate::completion::last_index_of(s4, '.') == b.len());
    assert(crate::completion::last_index_of(s3, '.') == b.len());
    assert(crate::completion::last_index_of(s2, '.') == b.len());
    assert(crate::completion::last_index_of(s1, '.') == b.len());
}

/// A Gren file below the project root is named by its directories (a leading
/// `src` left out) and its file name without `.gren`, joined by dots:
/// `src/Utils/Parser.gren` gives `Utils.Parser`.
pub proof fn law_module_name_of_file(file: Seq<char>, root: Seq<char>, dirs: Seq<Seq<char>>, base: Seq<char>)
    requires
        components_of(file) == components_of(root) + dirs + seq![base + ".gren"@],
        forall|i: int| 0 <= i < dirs.len() ==> is_normal(#[trigger] dirs[i]) && dirs[i].len() > 0,
        base.len() > 0,
        base != seq!['.'],
    ensures
        module_name_of(file, root) == Some(join_sep(after_src(dirs + seq![base + ".gren"@]).drop_last().push(base), '.')),
{
    reveal_strlit(".gren");
    let rc = components_of(root);
    let fc = components_of(file);
    let name = base + ".gren"@;
    let rel = dirs + seq![name];
    assert(fc.take(rc.len() as int) =~= rc);
    assert(fc.skip(rc.len() as int) =~= rel);
    let a = after_src(rel);
    assert(a.len() > 0 && a.last() == name) by {
        if rel.len() > 0 && rel[0] == seq!['s', 'r', 'c'] {
            if dirs.len() == 0 {
                assert(rel[0] == name);
                assert(name.len() == base.len() + 5);
            }
            assert(a.last() == rel.last());
        }
    }
    lemma_last_dot(base);
    assert(name.take(base.len() as int) =~= base);
    assert(stem_of(name) == base);
    assert(is_normal(name)) by {
        assert(name.len() >= 6);
    }
    let parts = a.drop_last().push(base);
    assert(without_extension(a) == parts);
    lemma_module_parts_nonempty(file, root);
    assert(module_parts(file, root) == parts);
    lemma_join_empty(parts);
}

/// The components after a leading `src` directory.
pub fn skip_src(c: Vec<Vec<char>>) -> (r: Vec<Vec<char>>)
    ensures
        texts(r@) == after_src(texts(c@)),
{
    let is_src = c.len() > 0 && c[0].len() == 3 && c[0][0] == 's' && c[0][1] == 'r' && c[0][2]
        == 'c';
    proof {
        if texts(c@).len() > 0 && texts(c@)[0] == seq!['s', 'r', 'c'] {
            assert(c@[0]@ == seq!['s', 'r', 'c']);
            assert(c@[0]@.len() == 3 && c@[0]@[0] == 's' && c@[0]@[1] == 'r' && c@[0]@[2] == 'c');
        }
        if is_src {
            assert(texts(c@)[0] =~= seq!['s', 'r', 'c']);
        }
    }
    if is_src {
        let mut rest: Vec<Vec<char>> = Vec::new();
        let mut i: usize = 1;
        assert(texts(rest@) =~= texts(c@).subrange(1, 1));
        while i < c.len()
            invariant
                1 <= i <= c@.len(),
                texts(rest@) == texts(c@).subrange(1, i as int),
            decreases c.len() - i,
        {
            let q = c[i].clone();
            proof {
                crate::paths::lemma_texts_push(rest@, q);
            }
            rest.push(q);
            assert(texts(c@).subrange(1, i + 1) =~= texts(c@).subrange(1, i as int).push(
                c@[i as int]@,
            ));
            i = i + 1;
        }
        assert(texts(c@).subrange(1, c@.len() as int) =~= texts(c@).skip(1));
        rest
    } else {
        c
    }
}

/// The module name of `file_path` inside the project at `project_root`,
/// e.g. `Utils.Parser` for `/project/src/Utils/Parser.gren`.
pub fn module_name_from_path(file_path: &str, project_root: &str) -> (r: Result<
    String,
    CompilerError,
>)
    ensures
        !has_components_prefix(components_of(file_path@), components_of(project_root@)) <==> r
            == Err::<String, CompilerError>(CompilerError::NotInProject),
        module_name_of(file_path@, project_root@) is None && has_components_prefix(
            components_of(file_path@),
            components_of(project_root@),
        ) <==> r == Err::<String, CompilerError>(CompilerError::NoModuleName),
        r matches Ok(name) ==> module_name_of(file_path@, project_root@) == Some(name@),
        module_name_of(file_path@, project_root@) is Some ==> r is Ok,
{
    let fc = components(chars_of(file_path).as_slice());
    let rc = components(chars_of(project_root).as_slice());
    let rel = match strip_components_prefix(&fc, &rc) {
        Some(rel) => rel,
        None => return Err(CompilerError::NotInProject),
    };
    let inner = skip_src(rel);
    let bare = strip_extension(inner);
    let name = join_with(&bare, '.');
    if name.len() == 0 {
        return Err(CompilerError::NoModuleName);
    }
    Ok(string_from_chars(name.as_slice()))
}

} // verus!
