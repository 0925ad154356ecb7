//! Renaming a module by moving its file: module names from file URIs, the
//! files that import the module, the checks made before the move, and the
//! edits that follow it.
use vstd::prelude::*;
use vstd::string::*;
use crate::paths::{
    after_src, components, components_of, has_components_prefix, is_normal, is_normal_component,
    join_sep, join_with, normal_only, render, render_components, strip_components_prefix,
    strip_extension, texts, without_extension, lemma_texts_push,
};
use crate::compiler::skip_src;
use crate::protocol::TextEdit;
use crate::rename::{FileEdits, WorkspaceEdit};
use crate::text::{chars_of, string_from_chars};
use crate::text_edits::{lenient_edits_outcome, replace_text_ranges, EditsOutcome};

verus! {

/// The file path that `url::Url::to_file_path` gives for the URL `uri`
/// parses to, as text (bytes that are not UTF-8 shown as U+FFFD), or `None`
/// when the text is no URL or the URL has a host that is not local.  The
/// URL's scheme is not looked at.
pub uninterp spec fn file_path_of(uri: Seq<char>) -> Option<Seq<char>>;

/// `url::Url::parse`, then `Url::to_file_path`, then the path's text
/// (`to_string_lossy`).  Stated: the result is the crate's verdict on the text, a function of it
/// alone; what the path is for a given URL is left unsaid.
#[verifier::external_body]
pub(crate) fn uri_file_path(uri: &str) -> (r: Option<String>)
    ensures
        r is Some <==> file_path_of(uri@) is Some,
        r matches Some(p) ==> file_path_of(uri@) == Some(p@),
{
    match url::Url::parse(uri) {
        Ok(u) => match u.to_file_path() {
            Ok(p) => Some(p.to_string_lossy().into_owned()),
            Err(_) => None,
        },
        Err(_) => None,
    }
}

/// Why a module rename step failed.
#[derive(Debug, Clone, Copy, PartialEq, Eq, Structural)]
pub enum ModuleRenameError {
    /// The URI is no file URL.
    InvalidUri,
    /// No workspace root is known yet.
    WorkspaceRootNotInitialized,
    /// The file lies outside the workspace (or the project root).
    NotInWorkspace,
    /// The checks before the move refused it.
    ValidationFailed,
}

/// The module name of a file inside a workspace: its path relative to the
/// root, without a leading `src` directory and without its extension, its
/// normal components joined by dots.
pub open spec fn workspace_module_name(file: Seq<char>, root: Seq<char>) -> Option<Seq<char>> {
    let fc = components_of(file);
    let rc = components_of(root);
    if !has_components_prefix(fc, rc) {
        None
    } else {
        Some(join_sep(normal_only(without_extension(after_src(fc.skip(rc.len() as int)))), '.'))
    }
}

/// The normal components of `c`.
fn keep_normal(c: Vec<Vec<char>>) -> (r: Vec<Vec<char>>)
    ensures
        texts(r@) == normal_only(texts(c@)),
{
    let mut r: Vec<Vec<char>> = Vec::new();
    let mut i: usize = 0;
    assert(texts(c@).take(0) =~= Seq::<Seq<char>>::empty());
    while i < c.len()
        invariant
            0 <= i <= c@.len(),
            texts(r@) == normal_only(texts(c@).take(i as int)),
        decreases c.len() - i,
    {
        assert(texts(c@).take(i + 1).drop_last() =~= texts(c@).take(i as int));
        if is_normal_component(&c[i]) {
            let q = c[i].clone();
            proof {
                lemma_texts_push(r@, q);
            }
            r.push(q);
        }
        i = i + 1;
    }
    assert(texts(c@).take(c@.len() as int) =~= texts(c@));
    r
}

/// The module name of the file at `uri`, relative to the workspace root:
/// `src/Utils.gren` is `Utils`, `src/Http/Client.gren` is `Http.Client`.
pub fn extract_module_name(uri: &str, workspace_root: Option<&str>) -> (r: Result<String, ModuleRenameError>)
    ensures
        file_path_of(uri@) is None ==> r == Err::<String, ModuleRenameError>(ModuleRenameError::InvalidUri),
        file_path_of(uri@) is Some && workspace_root is None ==> r == Err::<String, ModuleRenameError>(
            ModuleRenameError::WorkspaceRootNotInitialized,
        ),
        file_path_of(uri@) matches Some(p) ==> (workspace_root matches Some(root) ==> match workspace_module_name(
            p,
            root@,
        ) {
            Some(name) => r matches Ok(n) && n@ == name,
            None => r == Err::<String, ModuleRenameError>(ModuleRenameError::NotInWorkspace),
        }),
{
    let path = match uri_file_path(uri) {
        Some(p) => p,
        None => return Err(ModuleRenameError::InvalidUri),
    };
    let root = match workspace_root {
        Some(r) => r,
        None => return Err(ModuleRenameError::WorkspaceRootNotInitialized),
    };
    let fc = components(chars_of(path.as_str()).as_slice());
    let rc = components(chars_of(root).as_slice());
    let rel = match strip_components_prefix(&fc, &rc) {
        Some(rel) => rel,
        None => return Err(ModuleRenameError::NotInWorkspace),
    };
    let inner = skip_src(rel);
    let bare = strip_extension(inner);
    let kept = keep_normal(bare);
    let name = join_with(&kept, '.');
    Ok(string_from_chars(name.as_slice()))
}

/// The path of the file at `uri` relative to the project root.
pub open spec fn relative_path_of(file: Seq<char>, root: Seq<char>) -> Option<Seq<char>> {
    let fc = components_of(file);
    let rc = components_of(root);
    if has_components_prefix(fc, rc) {
        Some(render(fc.skip(rc.len() as int)))
    } else {
        None
    }
}

/// The path of the file at `uri` relative to the project root.
pub fn uri_to_relative_path(uri: &str, project_root: &str) -> (r: Result<String, ModuleRenameError>)
    ensures
        file_path_of(uri@) is None ==> r == Err::<String, ModuleRenameError>(ModuleRenameError::InvalidUri),
        file_path_of(uri@) matches Some(p) ==> match relative_path_of(p, project_root@) {
            Some(rel) => r matches Ok(t) && t@ == rel,
            None => r == Err::<String, ModuleRenameError>(ModuleRenameError::NotInWorkspace),
        },
{
    let path = match uri_file_path(uri) {
        Some(p) => p,
        None => return Err(ModuleRenameError::InvalidUri),
    };
    let fc = components(chars_of(path.as_str()).as_slice());
    let rc = components(chars_of(project_root).as_slice());
    match strip_components_prefix(&fc, &rc) {
        Some(rel) => {
            let t = render_components(&rel);
            Ok(string_from_chars(t.as_slice()))
        },
        None => Err(ModuleRenameError::NotInWorkspace),
    }
}

/// A document of the workspace and the modules it imports.
#[derive(Debug, Clone)]
pub struct DocumentImports {
    pub uri: String,
    pub imported_modules: Vec<String>,
}

/// `name` is among the modules a document imports.
pub open spec fn imports_module(d: DocumentImports, name: Seq<char>) -> bool {
    exists|i: int| 0 <= i < d.imported_modules@.len() && (#[trigger] d.imported_modules@[i])@ == name
}

/// Whether the document imports the module `module_name`.
pub fn has_import_reference(document: &DocumentImports, module_name: &str) -> (r: bool)
    ensures
        r == imports_module(*document, module_name@),
{
    let mut i: usize = 0;
    while i < document.imported_modules.len()
        invariant
            0 <= i <= document.imported_modules@.len(),
            forall|j: int| 0 <= j < i ==> (#[trigger] document.imported_modules@[j])@ != module_name@,
        decreases document.imported_modules.len() - i,
    {
        if crate::ordering::str_equal(document.imported_modules[i].as_str(), module_name) {
            return true;
        }
        i = i + 1;
    }
    false
}

/// The URIs of the documents, other than the module's own, that import it.
pub open spec fn importers(docs: Seq<DocumentImports>, module_uri: Seq<char>, name: Seq<char>) -> Seq<
    Seq<char>,
>
    decreases docs.len(),
{
    if docs.len() == 0 {
        Seq::empty()
    } else {
        let r = importers(docs.drop_last(), module_uri, name);
        let d = docs.last();
        if d.uri@ != module_uri && imports_module(d, name) {
            r.push(d.uri@)
        } else {
            r
        }
    }
}

pub open spec fn string_views(v: Seq<String>) -> Seq<Seq<char>> {
    v.map_values(|s: String| s@)
}

/// The documents that import the module at `module_uri`, the module's own
/// file left out.
pub fn find_affected_files(
    module_uri: &str,
    workspace_root: Option<&str>,
    documents: &Vec<DocumentImports>,
) -> (r: Result<Vec<String>, ModuleRenameError>)
    ensures
        match (file_path_of(module_uri@), workspace_root) {
            (Some(p), Some(root)) => match workspace_module_name(p, root@) {
                Some(name) => r matches Ok(v) && string_views(v@) == importers(
                    documents@,
                    module_uri@,
                    name,
                ),
                None => r is Err,
            },
            _ => r is Err,
        },
{
    let module_name = extract_module_name(module_uri, workspace_root)?;
    let mut affected: Vec<String> = Vec::new();
    let mut i: usize = 0;
    assert(documents@.take(0) =~= Seq::<DocumentImports>::empty());
    while i < documents.len()
        invariant
            0 <= i <= documents@.len(),
            string_views(affected@) == importers(documents@.take(i as int), module_uri@, module_name@),
        decreases documents.len() - i,
    {
        assert(documents@.take(i + 1).drop_last() =~= documents@.take(i as int));
        let d = &documents[i];
        if !crate::ordering::str_equal(d.uri.as_str(), module_uri) && has_import_reference(
            d,
            module_name.as_str(),
        ) {
            let u = d.uri.clone();
            affected.push(u);
            assert(string_views(affected@) =~= importers(documents@.take(i as int), module_uri@, module_name@).push(d.uri@));
        }
        i = i + 1;
    }
    assert(documents@.take(documents@.len() as int) =~= documents@);
    Ok(affected)
}

/// The content with each edit's range replaced by its new text, the edit
/// that starts last first; all other text is kept as it was.  An edit whose
/// range the content does not have is passed over.  Requires that no slicing
/// panics (see `text_edits_replace`).
pub fn apply_text_edits(content: &str, edits: &Vec<TextEdit>) -> (r: String)
    requires
        !(lenient_edits_outcome(content@, edits@) is Crash),
    ensures
        lenient_edits_outcome(content@, edits@) matches EditsOutcome::Applied(m) && r@ == m,
{
    replace_text_ranges(content, edits)
}

/// The verdict of the checks made before moving a module's file.
#[derive(Debug, Clone)]
pub struct RenameValidationResult {
    pub is_valid: bool,
    pub error_message: Option<String>,
    pub affected_files: Vec<String>,
}

fn message_with(prefix: &str, detail: &str) -> (r: String)
    ensures
        r@ == prefix@ + detail@,
{
    let mut m = prefix.to_string();
    m.append(detail);
    m
}

/// Checks a module rename before the file moves: the source must exist, the
/// target must not, and the file system check (`fs_error`, made by the
/// caller) must have passed; then the files that import the module are
/// listed.  `old_exists` and `new_exists` say whether the paths of the two
/// URIs exist.
pub fn validate_rename(
    old_uri: &str,
    new_uri: &str,
    old_exists: bool,
    new_exists: bool,
    fs_error: Option<String>,
    workspace_root: Option<&str>,
    documents: &Vec<DocumentImports>,
) -> (r: Result<RenameValidationResult, ModuleRenameError>)
    ensures
        file_path_of(old_uri@) is None ==> r == Err::<RenameValidationResult, ModuleRenameError>(
            ModuleRenameError::InvalidUri,
        ),
        file_path_of(old_uri@) is Some && !old_exists ==> (r matches Ok(v) && !v.is_valid
            && v.affected_files@.len() == 0 && (v.error_message matches Some(m) && m@
            == "Source file does not exist: "@ + old_uri@)),
        file_path_of(old_uri@) is Some && old_exists && file_path_of(new_uri@) is None ==> r == Err::<
            RenameValidationResult,
            ModuleRenameError,
        >(ModuleRenameError::InvalidUri),
        file_path_of(old_uri@) is Some && old_exists && file_path_of(new_uri@) is Some && new_exists
            ==> (r matches Ok(v) && !v.is_valid && v.affected_files@.len() == 0 && (
            v.error_message matches Some(m) && m@ == "Target file already exists: "@ + new_uri@)),
        file_path_of(old_uri@) is Some && old_exists && file_path_of(new_uri@) is Some && !new_exists
            && fs_error is Some ==> (r matches Ok(v) && !v.is_valid && v.affected_files@.len() == 0
            && (v.error_message matches Some(m) && m@ == "File system validation failed: "@
            + fs_error.unwrap()@)),
        file_path_of(old_uri@) is Some && old_exists && file_path_of(new_uri@) is Some && !new_exists
            && fs_error is None ==> match (file_path_of(old_uri@), workspace_root) {
            (Some(p), Some(root)) => match workspace_module_name(p, root@) {
                Some(name) => r matches Ok(v) && v.is_valid && v.error_message is None && string_views(
                    v.affected_files@,
                ) == importers(documents@, old_uri@, name),
                None => r is Err,
            },
            _ => r is Err,
        },
{
    if uri_file_path(old_uri).is_none() {
        return Err(ModuleRenameError::InvalidUri);
    }
    if !old_exists {
        proof {
            reveal_strlit("Source file does not exist: ");
        }
        return Ok(RenameValidationResult {
            is_valid: false,
            error_message: Some(message_with("Source file does not exist: ", old_uri)),
            affected_files: Vec::new(),
        });
    }
    if uri_file_path(new_uri).is_none() {
        return Err(ModuleRenameError::InvalidUri);
    }
    if new_exists {
        return Ok(RenameValidationResult {
            is_valid: false,
            error_message: Some(message_with("Target file already exists: ", new_uri)),
            affected_files: Vec::new(),
        });
    }
    if let Some(e) = fs_error {
        return Ok(RenameValidationResult {
            is_valid: false,
            error_message: Some(message_with("File system validation failed: ", e.as_str())),
            affected_files: Vec::new(),
        });
    }
    let affected_files = find_affected_files(old_uri, workspace_root, documents)?;
    Ok(RenameValidationResult { is_valid: true, error_message: None, affected_files })
}

/// The document edits of a module rename: the import rewrites of the files
/// that import the module (those with edits), then the module declaration's
/// edits under the new URI, which replace any edits already listed for it.
/// A refused validation refuses the edits.
pub fn prepare_rename_edits(
    validation: &RenameValidationResult,
    import_rewrites: Vec<FileEdits>,
    declaration_edits: Vec<TextEdit>,
    new_uri: &str,
) -> (r: Result<WorkspaceEdit, ModuleRenameError>)
    ensures
        !validation.is_valid ==> r == Err::<WorkspaceEdit, ModuleRenameError>(
            ModuleRenameError::ValidationFailed,
        ),
        validation.is_valid ==> (r matches Ok(w) && ({
            let kept = with_edits(import_rewrites@);
            if declaration_edits@.len() == 0 {
                if kept.len() == 0 {
                    w.changes is None
                } else {
                    w.changes matches Some(c) && c@ == kept
                }
            } else {
                w.changes matches Some(c) && c@.len() == without_uri(kept, new_uri@).len() + 1
                    && c@.take(c@.len() - 1) == without_uri(kept, new_uri@) && c@.last().uri@
                    == new_uri@ && c@.last().edits == declaration_edits
            }
        })),
{
    if !validation.is_valid {
        return Err(ModuleRenameError::ValidationFailed);
    }
    let mut changes: Vec<FileEdits> = Vec::new();
    let mut rewrites = import_rewrites;
    let ghost all = rewrites@;
    let n = rewrites.len();
    let mut i: usize = 0;
    assert(all.take(0) =~= Seq::<FileEdits>::empty());
    while rewrites.len() > 0
        invariant
            all.len() == n,
            0 <= i <= n,
            rewrites.len() == n - i,
            rewrites@ == all.skip(i as int),
            changes@ == with_edits(all.take(i as int)),
        decreases rewrites.len(),
    {
        let f = rewrites.remove(0);
        assert(f == all[i as int]);
        assert(rewrites@ =~= all.skip(i + 1));
        assert(all.take(i + 1).drop_last() =~= all.take(i as int));
        if f.edits.len() > 0 {
            changes.push(f);
        }
        i = i + 1;
    }
    assert(all.take(n as int) =~= all);
    if declaration_edits.len() > 0 {
        let ghost kept = changes@;
        let mut others: Vec<FileEdits> = Vec::new();
        let mut rest = changes;
        let m = rest.len();
        let mut k: usize = 0;
        assert(kept.take(0) =~= Seq::<FileEdits>::empty());
        while rest.len() > 0
            invariant
                kept.len() == m,
                0 <= k <= m,
                rest.len() == m - k,
                rest@ == kept.skip(k as int),
                others@ == without_uri(kept.take(k as int), new_uri@),
            decreases rest.len(),
        {
            let f = rest.remove(0);
            assert(f == kept[k as int]);
            assert(rest@ =~= kept.skip(k + 1));
            assert(kept.take(k + 1).drop_last() =~= kept.take(k as int));
            if !crate::ordering::str_equal(f.uri.as_str(), new_uri) {
                others.push(f);
            }
            k = k + 1;
        }
        assert(kept.take(m as int) =~= kept);
        let ghost before = others@;
        others.push(FileEdits { uri: new_uri.to_string(), edits: declaration_edits });
        assert(others@.take(others@.len() - 1) =~= before);
        return Ok(WorkspaceEdit { changes: Some(others) });
    }
    if changes.len() == 0 {
        Ok(WorkspaceEdit { changes: None })
    } else {
        Ok(WorkspaceEdit { changes: Some(changes) })
    }
}

/// The files that have edits, in order.
pub open spec fn with_edits(v: Seq<FileEdits>) -> Seq<FileEdits>
    decreases v.len(),
{
    if v.len() == 0 {
        Seq::empty()
    } else if v.last().edits@.len() > 0 {
        with_edits(v.drop_last()).push(v.last())
    } else {
        with_edits(v.drop_last())
    }
}

/// The files other than `uri`, in order.
pub open spec fn without_uri(v: Seq<FileEdits>, uri: Seq<char>) -> Seq<FileEdits>
    decreases v.len(),
{
    if v.len() == 0 {
        Seq::empty()
    } else if v.last().uri@ != uri {
        without_uri(v.drop_last(), uri).push(v.last())
    } else {
        without_uri(v.drop_last(), uri)
    }
}

/// The files affected by moving a module are, in order, the URIs of the
/// documents other than the module's own whose imports name the module.
pub proof fn law_importers_are_importing_documents(docs: Seq<DocumentImports>, module_uri: Seq<char>, name: Seq<char>)
    ensures
        importers(docs, module_uri, name) == docs.filter(
            |d: DocumentImports|
                d.uri@ != module_uri && exists|i: int|
                    0 <= i < d.imported_modules@.len() && (#[trigger] d.imported_modules@[i])@ == name,
        ).map_values(|d: DocumentImports| d.uri@),
    decreases docs.len(),
{
    reveal_with_fuel(Seq::filter, 1);
    let f = |d: DocumentImports|
        d.uri@ != module_uri && exists|i: int|
            0 <= i < d.imported_modules@.len() && (#[trigger] d.imported_modules@[i])@ == name;
    if docs.len() > 0 {
        law_importers_are_importing_documents(docs.drop_last(), module_uri, name);
        let g = docs.drop_last().filter(f);
        assert(g.push(docs.last()).map_values(|d: DocumentImports| d.uri@) =~= g.map_values(
            |d: DocumentImports| d.uri@,
        ).push(docs.last().uri@));
    } else {
        assert(docs.filter(f) =~= Seq::<DocumentImports>::empty());
    }
}

/// A module rename keeps, in order, the import rewrites that have edits;
/// where the declaration has edits, the files other than the new URI are
/// kept, in order, before them.
pub proof fn law_rename_edit_files(v: Seq<FileEdits>, uri: Seq<char>)
    ensures
        with_edits(v) == v.filter(|f: FileEdits| f.edits@.len() > 0),
        without_uri(v, uri) == v.filter(|f: FileEdits| f.uri@ != uri),
    decreases v.len(),
{
    reveal_with_fuel(Seq::filter, 1);
    if v.len() > 0 {
        law_rename_edit_files(v.drop_last(), uri);
    } else {
        assert(v.filter(|f: FileEdits| f.edits@.len() > 0) =~= Seq::<FileEdits>::empty());
        assert(v.filter(|f: FileEdits| f.uri@ != uri) =~= Seq::<FileEdits>::empty());
    }
}

} // verus!
