//! Checking that a rename compiles: the documents with the rename's edits
//! applied, where each Gren module goes in a scratch project, and what a
//! compiler run means for the rename.
use vstd::prelude::*;
use vstd::string::*;
use crate::completion_items::{find_text, first_occurrence};
use crate::line_scan::{ends_with, has_suffix, str_contains, contains_text};
use crate::module_rename::{file_path_of, uri_file_path};
use crate::paths::{file_name_of_path, path_file_name, texts};
use crate::rename::{FileEdits, WorkspaceEdit};
use crate::text::{chars_of, pieces, split_chars, string_from_chars};
use crate::text_edits::{apply_text_edits, document_edits_outcome, EditError, EditsOutcome};

verus! {

/// The path of the URL that `uri` parses to, as `url::Url::path` writes it
/// (percent-encoded), or `None` when the text is no URL.
pub uninterp spec fn url_path_of(uri: Seq<char>) -> Option<Seq<char>>;

/// `url::Url::parse`, then `Url::path`.  Stated: the result is a function
/// of the text alone; what the path is is left unsaid.
#[verifier::external_body]
pub(crate) fn url_path(uri: &str) -> (r: Option<String>)
    ensures
        r is Some <==> url_path_of(uri@) is Some,
        r matches Some(p) ==> url_path_of(uri@) == Some(p@),
{
    url::Url::parse(uri).ok().map(|u| u.path().to_string())
}

/// The scheme of the URL that `uri` parses to, as `url::Url::scheme` writes
/// it, or `None` when the text is no URL.
pub uninterp spec fn url_scheme_of(uri: Seq<char>) -> Option<Seq<char>>;

/// `url::Url::parse`, then `Url::scheme`.  Stated: the result is a function
/// of the text alone; what the scheme is is left unsaid.
#[verifier::external_body]
pub(crate) fn url_scheme(uri: &str) -> (r: Option<String>)
    ensures
        r is Some <==> url_scheme_of(uri@) is Some,
        r matches Some(p) ==> url_scheme_of(uri@) == Some(p@),
{
    url::Url::parse(uri).ok().map(|u| u.scheme().to_string())
}

/// A document of the workspace: its URI and its text.
#[derive(Debug, Clone)]
pub struct WorkspaceDocument {
    pub uri: String,
    pub content: String,
}

pub open spec fn document_views(v: Seq<WorkspaceDocument>) -> Seq<(Seq<char>, Seq<char>)> {
    v.map_values(|d: WorkspaceDocument| (d.uri@, d.content@))
}

proof fn lemma_document_views_push(v: Seq<WorkspaceDocument>, d: WorkspaceDocument)
    ensures
        document_views(v.push(d)) =~= document_views(v).push((d.uri@, d.content@)),
{
    assert forall|k: int| 0 <= k < v.len() + 1 implies #[trigger] document_views(v.push(d))[k]
        == document_views(v).push((d.uri@, d.content@))[k] by {
        if k < v.len() {
            assert(v.push(d)[k] == v[k]);
        }
    }
}

/// Where the document `uri` is in the list, or -1.
pub open spec fn document_index(docs: Seq<(Seq<char>, Seq<char>)>, uri: Seq<char>) -> int
    decreases docs.len(),
{
    if docs.len() == 0 {
        -1
    } else if docs.last().0 == uri {
        docs.len() - 1
    } else {
        document_index(docs.drop_last(), uri)
    }
}

proof fn lemma_document_index(docs: Seq<(Seq<char>, Seq<char>)>, uri: Seq<char>)
    ensures
        -1 <= document_index(docs, uri) < docs.len(),
        document_index(docs, uri) >= 0 ==> docs[document_index(docs, uri)].0 == uri,
    decreases docs.len(),
{
    if docs.len() > 0 {
        lemma_document_index(docs.drop_last(), uri);
    }
}

/// Renaming with edits that change nothing leaves the documents as they
/// are: a workspace edit whose files carry no edits gives back the
/// documents unchanged.
pub proof fn law_no_rename_edits_keep_documents(docs: Seq<(Seq<char>, Seq<char>)>, files: Seq<FileEdits>)
    requires
        forall|k: int| 0 <= k < files.len() ==> (#[trigger] files[k]).edits@.len() == 0,
    ensures
        documents_outcome(docs, files) == DocumentsOutcome::Applied(docs),
    decreases files.len(),
{
    if files.len() > 0 {
        assert forall|k: int| 0 <= k < files.drop_last().len() implies (#[trigger] files.drop_last()[k]).edits@.len() == 0 by {
            assert(files.drop_last()[k] == files[k]);
        }
        law_no_rename_edits_keep_documents(docs, files.drop_last());
        let f = files.last();
        assert(f.edits@ =~= Seq::<crate::protocol::TextEdit>::empty());
        lemma_document_index(docs, f.uri@);
        let i = document_index(docs, f.uri@);
        if i >= 0 {
            crate::text_edits::law_no_edits_keep_text(docs[i].1);
            assert(docs.update(i, (f.uri@, docs[i].1)) =~= docs);
        }
    }
}

/// What applying a workspace edit's files to the documents comes to.
pub enum DocumentsOutcome {
    Applied(Seq<(Seq<char>, Seq<char>)>),
    Failed(EditError),
    Crash,
}

/// The edits of each file applied to its document, file after file; a file
/// without a document is passed over.
pub open spec fn documents_outcome(docs: Seq<(Seq<char>, Seq<char>)>, files: Seq<FileEdits>) -> DocumentsOutcome
    decreases files.len(),
{
    if files.len() == 0 {
        DocumentsOutcome::Applied(docs)
    } else {
        match documents_outcome(docs, files.drop_last()) {
            DocumentsOutcome::Applied(d) => {
                let f = files.last();
                let i = document_index(d, f.uri@);
                if i < 0 {
                    DocumentsOutcome::Applied(d)
                } else {
                    match document_edits_outcome(d[i].1, f.edits@) {
                        EditsOutcome::Applied(t) => DocumentsOutcome::Applied(
                            d.update(i, (f.uri@, t)),
                        ),
                        EditsOutcome::Failed(e) => DocumentsOutcome::Failed(e),
                        EditsOutcome::Crash => DocumentsOutcome::Crash,
                    }
                }
            },
            other => other,
        }
    }
}

/// The edits of a workspace edit applied to the documents.
pub open spec fn edited_documents(docs: Seq<(Seq<char>, Seq<char>)>, edit: WorkspaceEdit) -> DocumentsOutcome {
    match edit.changes {
        Some(files) => documents_outcome(docs, files@),
        None => DocumentsOutcome::Applied(docs),
    }
}

fn find_document(docs: &Vec<WorkspaceDocument>, uri: &str) -> (r: Option<usize>)
    ensures
        r matches Some(i) ==> i == document_index(document_views(docs@), uri@) && i < docs@.len(),
        r is None ==> document_index(document_views(docs@), uri@) == -1,
{
    let mut i: usize = docs.len();
    assert(document_views(docs@).take(docs@.len() as int) =~= document_views(docs@));
    while i > 0
        invariant
            0 <= i <= docs@.len(),
            document_index(document_views(docs@), uri@) == document_index(
                document_views(docs@).take(i as int),
                uri@,
            ),
        decreases i,
    {
        assert(document_views(docs@).take(i as int).drop_last() =~= document_views(docs@).take(
            i - 1,
        ));
        if crate::ordering::str_equal(docs[i - 1].uri.as_str(), uri) {
            return Some(i - 1);
        }
        i = i - 1;
    }
    None
}

/// Whether applying the workspace edit goes without a panic.
pub fn workspace_edit_applies(edit: &WorkspaceEdit, documents: &Vec<WorkspaceDocument>) -> (r: bool)
    ensures
        r == !(edited_documents(document_views(documents@), *edit) is Crash),
{
    match run_workspace_edit(edit, documents, true) {
        (Some(_), _) => false,
        _ => true,
    }
}

/// Applies the files' edits in order; with `probe`, stops before a panic and
/// says so (first field `Some`), without it requires there is none.
fn run_workspace_edit(edit: &WorkspaceEdit, documents: &Vec<WorkspaceDocument>, probe: bool) -> (r: (
    Option<()>,
    Result<Vec<WorkspaceDocument>, EditError>,
))
    requires
        !probe ==> !(edited_documents(document_views(documents@), *edit) is Crash),
    ensures
        r.0 is Some <==> edited_documents(document_views(documents@), *edit) is Crash,
        match edited_documents(document_views(documents@), *edit) {
            DocumentsOutcome::Applied(d) => r.1 matches Ok(v) && document_views(v@) == d,
            DocumentsOutcome::Failed(e) => r.1 == Err::<Vec<WorkspaceDocument>, EditError>(e),
            DocumentsOutcome::Crash => true,
        },
{
    let mut docs: Vec<WorkspaceDocument> = Vec::new();
    let mut k: usize = 0;
    while k < documents.len()
        invariant
            0 <= k <= documents@.len(),
            document_views(docs@) == document_views(documents@).take(k as int),
        decreases documents.len() - k,
    {
        let d = WorkspaceDocument { uri: documents[k].uri.clone(), content: documents[k].content.clone() };
        let ghost prev = docs@;
        docs.push(d);
        proof {
            lemma_document_views_push(prev, d);
            assert(document_views(documents@).take(k + 1) =~= document_views(documents@).take(k as int).push(document_views(documents@)[k as int]));
        }
        k = k + 1;
    }
    assert(document_views(documents@).take(documents@.len() as int) =~= document_views(documents@));
    let files = match &edit.changes {
        Some(f) => f,
        None => return (None, Ok(docs)),
    };
    let ghost start = document_views(documents@);
    let mut i: usize = 0;
    assert(files@.take(0) =~= Seq::<FileEdits>::empty());
    while i < files.len()
        invariant
            0 <= i <= files@.len(),
            edit.changes == Some(*files),
            start == document_views(documents@),
            !probe ==> !(documents_outcome(start, files@) is Crash),
            documents_outcome(start, files@.take(i as int)) == DocumentsOutcome::Applied(
                document_views(docs@),
            ),
        decreases files.len() - i,
    {
        assert(files@.take(i + 1).drop_last() =~= files@.take(i as int));
        let f = &files[i];
        match find_document(&docs, f.uri.as_str()) {
            None => {},
            Some(j) => {
                let ok = crate::text_edits::text_edits_apply(docs[j].content.as_str(), &f.edits);
                if !ok {
                    proof {
                        lemma_documents_settled(start, files@, i + 1);
                    }
                    return (Some(()), Err(EditError::StartLineBeyondDocument));
                }
                match apply_text_edits(docs[j].content.as_str(), &f.edits) {
                    Ok(t) => {
                        let ghost before = document_views(docs@);
                        docs.set(j, WorkspaceDocument { uri: f.uri.clone(), content: t });
                        assert(document_views(docs@) =~= before.update(j as int, (f.uri@, t@)));
                    },
                    Err(e) => {
                        proof {
                            lemma_documents_settled(start, files@, i + 1);
                        }
                        return (None, Err(e));
                    },
                }
            },
        }
        i = i + 1;
    }
    assert(files@.take(files@.len() as int) =~= files@);
    (None, Ok(docs))
}

proof fn lemma_documents_settled(docs: Seq<(Seq<char>, Seq<char>)>, files: Seq<FileEdits>, i: int)
    requires
        0 < i <= files.len(),
        !(documents_outcome(docs, files.take(i)) is Applied),
    ensures
        documents_outcome(docs, files) == documents_outcome(docs, files.take(i)),
    decreases files.len() - i,
{
    if i < files.len() {
        assert(files.take(i + 1).drop_last() =~= files.take(i));
        lemma_documents_settled(docs, files, i + 1);
    } else {
        assert(files.take(i) =~= files);
    }
}

/// The documents with the workspace edit applied (documents the edit does
/// not name stay as they are).  Requires that no edit panics (see
/// `workspace_edit_applies`).
pub fn apply_workspace_edit(edit: &WorkspaceEdit, documents: &Vec<WorkspaceDocument>) -> (r: Result<
    Vec<WorkspaceDocument>,
    EditError,
>)
    requires
        !(edited_documents(document_views(documents@), *edit) is Crash),
    ensures
        match edited_documents(document_views(documents@), *edit) {
            DocumentsOutcome::Applied(d) => r matches Ok(v) && document_views(v@) == d,
            DocumentsOutcome::Failed(e) => r == Err::<Vec<WorkspaceDocument>, EditError>(e),
            DocumentsOutcome::Crash => false,
        },
{
    run_workspace_edit(edit, documents, false).1
}

/// `s` without any number of trailing copies of `p` (std's `trim_end_matches`).
pub open spec fn trim_suffix_all(s: Seq<char>, p: Seq<char>) -> Seq<char>
    decreases s.len(),
{
    if p.len() > 0 && ends_with(s, p) {
        trim_suffix_all(s.take(s.len() - p.len()), p)
    } else {
        s
    }
}

/// `s` with every `/` turned into a `.`.
pub open spec fn slashes_to_dots(s: Seq<char>) -> Seq<char> {
    s.map_values(|c: char| if c == '/' { '.' } else { c })
}

/// The module name a document gets in the scratch project: what follows the
/// first `/src/` of its URL path, without the `.gren` extension and with
/// slashes as dots; without `/src/`, its file name without the extension.
pub open spec fn scratch_module_name(url_path: Option<Seq<char>>, file_name: Seq<char>) -> Seq<char> {
    match url_path {
        Some(p) => {
            let i = first_occurrence(p, "/src/"@);
            if i >= 0 {
                slashes_to_dots(trim_suffix_all(p.skip(i + 5), ".gren"@))
            } else {
                trim_suffix_all(file_name, ".gren"@)
            }
        },
        None => trim_suffix_all(file_name, ".gren"@),
    }
}

/// Where a module goes in the scratch project's `src` directory.
#[derive(Debug, Clone)]
pub struct ScratchModule {
    pub module_name: String,
    /// The directories under `src`, outermost first.
    pub directories: Vec<String>,
    pub file_name: String,
    pub content: String,
}

pub open spec fn string_views(v: Seq<String>) -> Seq<Seq<char>> {
    v.map_values(|s: String| s@)
}

proof fn lemma_string_views_push(v: Seq<String>, x: String)
    ensures
        string_views(v.push(x)) =~= string_views(v).push(x@),
{
    assert forall|k: int| 0 <= k < v.len() + 1 implies #[trigger] string_views(v.push(x))[k]
        == string_views(v).push(x@)[k] by {
        if k < v.len() {
            assert(v.push(x)[k] == v[k]);
        }
    }
}

/// The module `name` placed for a document: directories for all but the last
/// dotted part, and a file named by the last part.
pub open spec fn is_placement(m: ScratchModule, name: Seq<char>, content: Seq<char>) -> bool {
    let parts = pieces(name, '.');
    &&& m.module_name@ == name
    &&& string_views(m.directories@) == parts.drop_last()
    &&& m.file_name@ == parts.last() + ".gren"@
    &&& m.content@ == content
}

/// A document becomes a scratch module when its URI is a URL of the `file`
/// scheme whose file name ends in `.gren`.
pub open spec fn is_scratch_document(uri: Seq<char>) -> bool {
    &&& url_scheme_of(uri) == Some("file"@)
    &&& file_path_of(uri) matches Some(p) && (path_file_name(p) matches Some(f) && ends_with(f, ".gren"@))
}

/// The module names of the documents that become scratch modules, in order.
pub open spec fn scratch_modules(docs: Seq<(Seq<char>, Seq<char>)>) -> Seq<(Seq<char>, Seq<char>)>
    decreases docs.len(),
{
    if docs.len() == 0 {
        Seq::empty()
    } else {
        let r = scratch_modules(docs.drop_last());
        let (uri, content) = docs.last();
        if is_scratch_document(uri) {
            r.push(
                (
                    scratch_module_name(url_path_of(uri), path_file_name(file_path_of(uri)->0)->0),
                    content,
                ),
            )
        } else {
            r
        }
    }
}

fn trim_gren(s: &[char]) -> (r: Vec<char>)
    ensures
        r@ == trim_suffix_all(s@, ".gren"@),
{
    let ext = chars_of(".gren");
    proof {
        reveal_strlit(".gren");
    }
    let mut cur: Vec<char> = Vec::new();
    let mut i: usize = 0;
    while i < s.len()
        invariant
            0 <= i <= s@.len(),
            cur@ == s@.take(i as int),
        decreases s.len() - i,
    {
        cur.push(s[i]);
        i = i + 1;
        assert(cur@ =~= s@.take(i as int));
    }
    assert(s@.take(s@.len() as int) =~= s@);
    while has_suffix(cur.as_slice(), ext.as_slice())
        invariant
            ext@ == ".gren"@,
            ext@.len() == 5,
            trim_suffix_all(cur@, ".gren"@) == trim_suffix_all(s@, ".gren"@),
        decreases cur@.len(),
    {
        let n = cur.len() - 5;
        let ghost before = cur@;
        cur.truncate(n);
        assert(cur@ =~= before.take(before.len() - 5));
    }
    cur
}

fn dots_for_slashes(s: &[char]) -> (r: Vec<char>)
    ensures
        r@ == slashes_to_dots(s@),
{
    let mut r: Vec<char> = Vec::new();
    let mut i: usize = 0;
    while i < s.len()
        invariant
            0 <= i <= s@.len(),
            r@ == slashes_to_dots(s@.take(i as int)),
        decreases s.len() - i,
    {
        r.push(if s[i] == '/' { '.' } else { s[i] });
        i = i + 1;
        assert(r@ =~= slashes_to_dots(s@.take(i as int)));
    }
    assert(s@.take(s@.len() as int) =~= s@);
    r
}

fn module_name_for(uri: &str, file_name: &[char]) -> (r: Vec<char>)
    ensures
        r@ == scratch_module_name(url_path_of(uri@), file_name@),
{
    match url_path(uri) {
        Some(p) => {
            let pc = chars_of(p.as_str());
            let marker = chars_of("/src/");
            proof {
                reveal_strlit("/src/");
            }
            match find_text(pc.as_slice(), marker.as_slice()) {
                Some(i) => {
                    let mut rest: Vec<char> = Vec::new();
                    let n: usize = pc.len();
                    let mut k: usize = i + 5;
                    while k < n
                        invariant
                            i + 5 <= k <= n,
                            n == pc@.len(),
                            rest@ == pc@.subrange(i + 5, k as int),
                        decreases n - k,
                    {
                        rest.push(pc[k]);
                        k = k + 1;
                        assert(rest@ =~= pc@.subrange(i + 5, k as int));
                    }
                    assert(rest@ =~= pc@.skip(i + 5));
                    let t = trim_gren(rest.as_slice());
                    dots_for_slashes(t.as_slice())
                },
                None => trim_gren(file_name),
            }
        },
        None => trim_gren(file_name),
    }
}

/// Where each Gren document goes in the scratch project: the documents whose
/// URI is a file URL of a `.gren` file, in order, each placed by its module
/// name (see `scratch_module_name`).
pub fn plan_scratch_modules(documents: &Vec<WorkspaceDocument>) -> (r: Vec<ScratchModule>)
    ensures
        r@.len() == scratch_modules(document_views(documents@)).len(),
        forall|i: int|
            0 <= i < r@.len() ==> is_placement(
                #[trigger] r@[i],
                scratch_modules(document_views(documents@))[i].0,
                scratch_modules(document_views(documents@))[i].1,
            ),
{
    let ghost dv = document_views(documents@);
    let ext = chars_of(".gren");
    proof {
        reveal_strlit(".gren");
    }
    let mut r: Vec<ScratchModule> = Vec::new();
    let mut i: usize = 0;
    assert(dv.take(0) =~= Seq::<(Seq<char>, Seq<char>)>::empty());
    while i < documents.len()
        invariant
            0 <= i <= documents@.len(),
            dv == document_views(documents@),
            ext@ == ".gren"@,
            r@.len() == scratch_modules(dv.take(i as int)).len(),
            forall|j: int|
                0 <= j < r@.len() ==> is_placement(
                    #[trigger] r@[j],
                    scratch_modules(dv.take(i as int))[j].0,
                    scratch_modules(dv.take(i as int))[j].1,
                ),
        decreases documents.len() - i,
    {
        assert(dv.take(i + 1).drop_last() =~= dv.take(i as int));
        assert(dv.take(i + 1).last() == (documents@[i as int].uri@, documents@[i as int].content@));
        let d = &documents[i];
        let file_scheme = match url_scheme(d.uri.as_str()) {
            Some(sch) => crate::ordering::str_equal(sch.as_str(), "file"),
            None => false,
        };
        proof {
            reveal_strlit("file");
        }
        if !file_scheme {
            i = i + 1;
            continue;
        }
        if let Some(path) = uri_file_path(d.uri.as_str()) {
            if let Some(fname) = file_name_of_path(path.as_str()) {
                if has_suffix(fname.as_slice(), ext.as_slice()) {
                    let name = module_name_for(d.uri.as_str(), fname.as_slice());
                    let parts = split_chars(name.as_slice(), '.');
                    proof {
                        crate::text::lemma_pieces_nonempty(name@, '.');
                    }
                    let mut dirs: Vec<String> = Vec::new();
                    let mut k: usize = 0;
                    while k < parts.len() - 1
                        invariant
                            0 <= k <= parts@.len() - 1,
                            parts@.len() >= 1,
                            texts(parts@) == pieces(name@, '.'),
                            string_views(dirs@) == pieces(name@, '.').take(k as int),
                        decreases parts.len() - k,
                    {
                        let s = string_from_chars(parts[k].as_slice());
                        let ghost prev = dirs@;
                        dirs.push(s);
                        assert(texts(parts@)[k as int] == parts@[k as int]@);
                        proof {
                            lemma_string_views_push(prev, s);
                            assert(pieces(name@, '.').take(k + 1) =~= pieces(name@, '.').take(k as int).push(pieces(name@, '.')[k as int]));
                        }
                        k = k + 1;
                    }
                    assert(pieces(name@, '.').take(k as int) =~= pieces(name@, '.').drop_last());
                    let last = &parts[parts.len() - 1];
                    assert(texts(parts@).last() == parts@[parts@.len() - 1]@);
                    let mut file_name = string_from_chars(last.as_slice());
                    file_name.append(".gren");
                    let m = ScratchModule {
                        module_name: string_from_chars(name.as_slice()),
                        directories: dirs,
                        file_name,
                        content: d.content.clone(),
                    };
                    let ghost prev = r@;
                    r.push(m);
                    assert(forall|j: int| 0 <= j < prev.len() ==> r@[j] == prev[j]);
                }
            }
        }
        i = i + 1;
    }
    assert(dv.take(documents@.len() as int) =~= dv);
    r
}

/// What a compiler run over a scratch module means for the rename.
#[derive(Debug, Clone)]
pub enum ModuleCheck {
    /// It compiled.
    Passed,
    /// The compiler crashed on a known internal error; the module is passed over.
    Skipped,
    /// It did not compile, or the compiler could not run: the message.
    Failed(String),
}

/// The text of the compiler's known internal crash.
pub open spec fn compiler_crash_marker() -> Seq<char> {
    "Prelude.last: empty list"@
}

/// The verdict on a module from its compiler run: `Ok` with whether it
/// compiled and its error text, or `Err` with why the compiler did not run.
pub open spec fn is_verdict(v: ModuleCheck, module_name: Seq<char>, run: Result<(bool, Seq<char>), Seq<char>>) -> bool {
    match run {
        Ok((true, _)) => v is Passed,
        Ok((false, stderr)) => if contains_text(stderr, compiler_crash_marker()) {
            v is Skipped
        } else {
            v matches ModuleCheck::Failed(m) && m@ == "Compilation validation failed for module '"@
                + module_name + "': "@ + stderr
        },
        Err(e) => if contains_text(e, compiler_crash_marker()) {
            v is Skipped
        } else {
            v matches ModuleCheck::Failed(m) && m@ == "Compilation validation error for module '"@
                + module_name + "': "@ + e
        },
    }
}

pub open spec fn run_view(run: Result<crate::compiler::CompileResult, String>) -> Result<(bool, Seq<char>), Seq<char>> {
    match run {
        Ok(c) => Ok((c.success, c.stderr@)),
        Err(e) => Err(e@),
    }
}

/// The index of the first failed module check, or -1.
pub open spec fn first_failed(v: Seq<ModuleCheck>) -> int
    decreases v.len(),
{
    if v.len() == 0 {
        -1
    } else if first_failed(v.drop_last()) >= 0 {
        first_failed(v.drop_last())
    } else if v.last() is Failed {
        v.len() - 1
    } else {
        -1
    }
}

proof fn lemma_first_failed(v: Seq<ModuleCheck>)
    ensures
        -1 <= first_failed(v) < v.len(),
        first_failed(v) >= 0 ==> v[first_failed(v)] is Failed,
        first_failed(v) == -1 <==> forall|k: int| 0 <= k < v.len() ==> !(#[trigger] v[k] is Failed),
    decreases v.len(),
{
    if v.len() > 0 {
        lemma_first_failed(v.drop_last());
        assert forall|k: int| 0 <= k < v.len() - 1 implies v[k] == v.drop_last()[k] by {}
    }
}

/// The rename's compilation check from the verdicts on its scratch modules,
/// in order: it passes when no module failed (every module compiled or was
/// passed over; no modules at all passes), else it fails with the message
/// of the first module that failed.
pub fn compilation_result(verdicts: &Vec<ModuleCheck>) -> (r: Result<(), String>)
    ensures
        r is Ok <==> forall|k: int| 0 <= k < verdicts@.len() ==> !(#[trigger] verdicts@[k] is Failed),
        r matches Err(m) ==> verdicts@[first_failed(verdicts@)] matches ModuleCheck::Failed(f) && m@ == f@,
{
    proof {
        lemma_first_failed(verdicts@);
    }
    let mut i: usize = 0;
    while i < verdicts.len()
        invariant
            0 <= i <= verdicts@.len(),
            first_failed(verdicts@.take(i as int)) == -1,
        decreases verdicts.len() - i,
    {
        assert(verdicts@.take(i + 1).drop_last() =~= verdicts@.take(i as int));
        match &verdicts[i] {
            ModuleCheck::Failed(m) => {
                proof {
                    lemma_first_failed_settled(verdicts@, i + 1);
                }
                return Err(m.clone());
            },
            _ => {},
        }
        i = i + 1;
    }
    assert(verdicts@.take(verdicts@.len() as int) =~= verdicts@);
    Ok(())
}

proof fn lemma_first_failed_settled(v: Seq<ModuleCheck>, i: int)
    requires
        0 < i <= v.len(),
        first_failed(v.take(i)) >= 0,
    ensures
        first_failed(v) == first_failed(v.take(i)),
    decreases v.len() - i,
{
    if i < v.len() {
        assert(v.take(i + 1).drop_last() =~= v.take(i));
        lemma_first_failed_settled(v, i + 1);
    } else {
        assert(v.take(i) =~= v);
    }
}

/// Whether a compiler run lets the rename through: the module compiled, or
/// the compiler crashed on the known internal error.
pub open spec fn run_passes(run: Result<(bool, Seq<char>), Seq<char>>) -> bool {
    match run {
        Ok((ok, stderr)) => ok || contains_text(stderr, compiler_crash_marker()),
        Err(e) => contains_text(e, compiler_crash_marker()),
    }
}

/// The compilation check over the scratch modules passes exactly when every
/// module's compiler run passes (it compiled, or crashed on the known
/// internal error); with no modules it passes.
pub proof fn law_compilation_passes_exactly(
    verdicts: Seq<ModuleCheck>,
    names: Seq<Seq<char>>,
    runs: Seq<Result<(bool, Seq<char>), Seq<char>>>,
)
    requires
        verdicts.len() == names.len() == runs.len(),
        forall|k: int| 0 <= k < verdicts.len() ==> is_verdict(#[trigger] verdicts[k], names[k], runs[k]),
    ensures
        (forall|k: int| 0 <= k < verdicts.len() ==> !(#[trigger] verdicts[k] is Failed))
            <==> (forall|k: int| 0 <= k < runs.len() ==> #[trigger] run_passes(runs[k])),
{
    assert forall|k: int| 0 <= k < verdicts.len() implies (verdicts[k] is Failed <==> !run_passes(runs[k])) by {
        assert(is_verdict(verdicts[k], names[k], runs[k]));
    }
    if forall|k: int| 0 <= k < verdicts.len() ==> !(#[trigger] verdicts[k] is Failed) {
        assert forall|k: int| 0 <= k < runs.len() implies #[trigger] run_passes(runs[k]) by {
            assert(!(verdicts[k] is Failed));
        }
    }
    if forall|k: int| 0 <= k < runs.len() ==> #[trigger] run_passes(runs[k]) {
        assert forall|k: int| 0 <= k < verdicts.len() implies !(#[trigger] verdicts[k] is Failed) by {
            assert(run_passes(runs[k]));
        }
    }
}

/// The verdict on a scratch module from its compiler run.
pub fn compile_verdict(module_name: &str, run: &Result<crate::compiler::CompileResult, String>) -> (r: ModuleCheck)
    ensures
        is_verdict(r, module_name@, run_view(*run)),
{
    let (text, ran) = match run {
        Ok(c) => {
            if c.success {
                return ModuleCheck::Passed;
            }
            (c.stderr.as_str(), true)
        },
        Err(e) => (e.as_str(), false),
    };
    if str_contains(text, "Prelude.last: empty list") {
        return ModuleCheck::Skipped;
    }
    let mut m = if ran {
        "Compilation validation failed for module '".to_string()
    } else {
        "Compilation validation error for module '".to_string()
    };
    m.append(module_name);
    m.append("': ");
    m.append(text);
    ModuleCheck::Failed(m)
}

} // verus!
