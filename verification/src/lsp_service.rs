//! The decisions of the language server proper: which capabilities it
//! announces to a client, which workspace root it takes, whether an edit to
//! a document is accepted, what a compilation compiles, and which
//! diagnostics it publishes.
use vstd::prelude::*;
use vstd::string::*;
use crate::compiler::{module_name_from_path, module_name_of, CompilerError};
use crate::diagnostics::{map_model, Diagnostic, DiagnosticModel, DiagnosticsMap, FileDiagnostics};
use crate::document::{
    change_allowed, changes_outcome, entry_index, ChangeOutcome, DocumentError, DocumentManager,
    TextDocumentContentChangeEvent,
};
use crate::module_rename::{file_path_of, relative_path_of, uri_file_path, uri_to_relative_path};
use crate::workspace_protocol::{get_file_operation_filters, FileOperationFilter};

verus! {

/// What a client declares it can do with text documents.
#[derive(Debug, Clone, Copy, PartialEq, Eq, Structural)]
pub struct TextDocumentClientCapabilities {
    pub hover: bool,
    pub completion: bool,
    pub references: bool,
    pub rename: bool,
    pub document_symbol: bool,
    pub code_action: bool,
}

/// What a client declares it can do with the workspace.
#[derive(Debug, Clone, Copy, PartialEq, Eq, Structural)]
pub struct WorkspaceClientCapabilities {
    pub symbol: bool,
    pub file_operations: bool,
}

/// What a client declares it can do.
#[derive(Debug, Clone, Copy, PartialEq, Eq, Structural)]
pub struct ClientCapabilities {
    pub text_document: Option<TextDocumentClientCapabilities>,
    pub workspace: Option<WorkspaceClientCapabilities>,
}

/// How the server offers completions.
#[derive(Debug, Clone)]
pub struct CompletionOptions {
    pub resolve_provider: bool,
    pub trigger_characters: Vec<String>,
}

/// How the server handles file operations in the workspace.
#[derive(Debug, Clone)]
pub struct WorkspaceServerCapabilities {
    pub workspace_folders_supported: bool,
    pub workspace_folders_change_notifications: bool,
    pub did_rename_filters: Vec<FileOperationFilter>,
    pub will_rename_filters: Vec<FileOperationFilter>,
}

/// What the server announces it can do.
#[derive(Debug, Clone)]
pub struct ServerCapabilities {
    /// Documents are synchronized by incremental changes.
    pub incremental_sync: bool,
    pub hover_provider: bool,
    pub completion_provider: Option<CompletionOptions>,
    pub definition_provider: bool,
    pub references_provider: bool,
    /// Renames, with a prepare step, when offered.
    pub rename_provider: Option<bool>,
    pub document_symbol_provider: bool,
    /// The code action kinds offered, by their protocol names.
    pub code_action_kinds: Option<Vec<String>>,
    pub workspace_symbol_provider: bool,
    pub workspace: Option<WorkspaceServerCapabilities>,
}

pub open spec fn string_views(v: Seq<String>) -> Seq<Seq<char>> {
    v.map_values(|s: String| s@)
}

/// The code action kinds the server offers.
pub open spec fn offered_action_kinds() -> Seq<Seq<char>> {
    seq!["quickfix"@, "refactor.rewrite"@, "source.organizeImports"@, "source.fixAll"@]
}

/// The filters of a file operation: Gren files of file URLs, matched by case.
pub open spec fn is_gren_filter_list(v: Seq<FileOperationFilter>) -> bool {
    &&& v.len() == 1
    &&& v[0].scheme matches Some(s) && s@ == "file"@
    &&& v[0].pattern.glob@ == "**/*.gren"@
    &&& v[0].pattern.matches == Some(crate::workspace_protocol::FileOperationPatternKind::File)
    &&& v[0].pattern.options == Some(
        crate::workspace_protocol::FileOperationPatternOptions { ignore_case: Some(false) },
    )
}

/// The capabilities announced to a client: incremental sync always; the
/// text document features only for a client that declares text document
/// capabilities, each (but definition, offered to any such client) only when
/// the client declares it; workspace symbols and file operations only when
/// declared.
pub open spec fn announces(s: ServerCapabilities, c: ClientCapabilities) -> bool {
    let td = c.text_document;
    &&& s.incremental_sync
    &&& s.hover_provider == (td matches Some(t) && t.hover)
    &&& (s.completion_provider is Some <==> (td matches Some(t) && t.completion))
    &&& (s.completion_provider matches Some(o) ==> !o.resolve_provider && string_views(
        o.trigger_characters@,
    ) == seq!["."@])
    &&& s.definition_provider == td is Some
    &&& s.references_provider == (td matches Some(t) && t.references)
    &&& (s.rename_provider is Some <==> (td matches Some(t) && t.rename))
    &&& (s.rename_provider matches Some(p) ==> p)
    &&& s.document_symbol_provider == (td matches Some(t) && t.document_symbol)
    &&& (s.code_action_kinds is Some <==> (td matches Some(t) && t.code_action))
    &&& (s.code_action_kinds matches Some(k) ==> string_views(k@) == offered_action_kinds())
    &&& s.workspace_symbol_provider == (c.workspace matches Some(w) && w.symbol)
    &&& (s.workspace is Some <==> (c.workspace matches Some(w) && w.file_operations))
    &&& (s.workspace matches Some(w) ==> w.workspace_folders_supported
        && w.workspace_folders_change_notifications && is_gren_filter_list(w.did_rename_filters@)
        && is_gren_filter_list(w.will_rename_filters@))
}

fn strings4(a: &str, b: &str, c: &str, d: &str) -> (r: Vec<String>)
    ensures
        string_views(r@) == seq![a@, b@, c@, d@],
{
    let mut v: Vec<String> = Vec::new();
    v.push(a.to_string());
    v.push(b.to_string());
    v.push(c.to_string());
    v.push(d.to_string());
    assert(string_views(v@) =~= seq![a@, b@, c@, d@]);
    v
}

/// The capabilities the server announces to a client (see `announces`).
pub fn server_capabilities(client: &ClientCapabilities) -> (r: ServerCapabilities)
    ensures
        announces(r, *client),
{
    let mut caps = ServerCapabilities {
        incremental_sync: true,
        hover_provider: false,
        completion_provider: None,
        definition_provider: false,
        references_provider: false,
        rename_provider: None,
        document_symbol_provider: false,
        code_action_kinds: None,
        workspace_symbol_provider: false,
        workspace: None,
    };
    if let Some(t) = client.text_document {
        if t.hover {
            caps.hover_provider = true;
        }
        if t.completion {
            let mut trigger: Vec<String> = Vec::new();
            trigger.push(".".to_string());
            assert(string_views(trigger@) =~= seq!["."@]);
            caps.completion_provider = Some(CompletionOptions { resolve_provider: false, trigger_characters: trigger });
        }
        caps.definition_provider = true;
        if t.references {
            caps.references_provider = true;
        }
        if t.rename {
            caps.rename_provider = Some(true);
        }
        if t.document_symbol {
            caps.document_symbol_provider = true;
        }
        if t.code_action {
            caps.code_action_kinds = Some(
                strings4("quickfix", "refactor.rewrite", "source.organizeImports", "source.fixAll"),
            );
        }
    }
    if let Some(w) = client.workspace {
        if w.symbol {
            caps.workspace_symbol_provider = true;
        }
        if w.file_operations {
            caps.workspace = Some(
                WorkspaceServerCapabilities {
                    workspace_folders_supported: true,
                    workspace_folders_change_notifications: true,
                    did_rename_filters: get_file_operation_filters(),
                    will_rename_filters: get_file_operation_filters(),
                },
            );
        }
    }
    caps
}

/// The workspace root the server takes from an initialize request: the file
/// path of the root URI when there is one (none when it is no file URL),
/// else the root path, else none.
pub open spec fn chosen_root(root_uri: Option<Seq<char>>, root_path: Option<Seq<char>>) -> Option<Seq<char>> {
    match root_uri {
        Some(u) => file_path_of(u),
        None => root_path,
    }
}

/// The workspace root of an initialize request (see `chosen_root`).
pub fn workspace_root_of(root_uri: Option<String>, root_path: Option<String>) -> (r: Option<String>)
    ensures
        r is Some <==> chosen_root(
            match root_uri {
                Some(u) => Some(u@),
                None => None,
            },
            match root_path {
                Some(p) => Some(p@),
                None => None,
            },
        ) is Some,
        r matches Some(p) ==> chosen_root(
            match root_uri {
                Some(u) => Some(u@),
                None => None,
            },
            match root_path {
                Some(p) => Some(p@),
                None => None,
            },
        ) == Some(p@),
{
    match root_uri {
        Some(u) => uri_file_path(u.as_str()),
        None => root_path,
    }
}

/// Why a change to a document was refused.
#[derive(Debug, Clone, Copy, PartialEq, Eq, Structural)]
pub enum ChangeRejection {
    /// The document is not open.
    DocumentNotFound,
    /// The version is not newer than the document's.
    VersionNotNewer { expected: i32, received: i32 },
    /// The version skips versions.
    VersionGap { expected: i32, received: i32 },
    /// Applying the changes failed.
    ChangeFailed,
}

/// The verdict on the version of a change: it must be exactly one more than
/// the open document's version.
pub open spec fn version_verdict(current: Option<i32>, requested: i32) -> Result<(), ChangeRejection> {
    match current {
        None => Err(ChangeRejection::DocumentNotFound),
        Some(v) => if requested <= v {
            Err(ChangeRejection::VersionNotNewer { expected: (v + 1) as i32, received: requested })
        } else if requested > v + 1 {
            Err(ChangeRejection::VersionGap { expected: (v + 1) as i32, received: requested })
        } else {
            Ok(())
        },
    }
}

/// Only the next version is accepted: a change to an open document is
/// accepted exactly when its version is one more than the document's.
pub proof fn law_only_next_version_accepted(current: i32, requested: i32)
    requires
        current < i32::MAX,
    ensures
        version_verdict(Some(current), requested) is Ok <==> requested == current + 1,
        version_verdict(None, requested) == Err::<(), ChangeRejection>(ChangeRejection::DocumentNotFound),
{
}

/// The cases of a change's version: a change to a document that is not open
/// is refused as not found; a version not above the document's is refused as
/// not newer, and one more than one above it as a gap, both naming the
/// version expected (one above the document's) and the one received; only
/// the next version passes.
pub proof fn law_version_cases(current: Option<i32>, requested: i32)
    requires
        current matches Some(v) ==> v < i32::MAX,
    ensures
        current is None ==> version_verdict(current, requested) == Err::<(), ChangeRejection>(
            ChangeRejection::DocumentNotFound,
        ),
        current matches Some(v) ==> {
            &&& requested <= v ==> version_verdict(current, requested) == Err::<(), ChangeRejection>(
                ChangeRejection::VersionNotNewer { expected: (v + 1) as i32, received: requested },
            )
            &&& requested > v + 1 ==> version_verdict(current, requested) == Err::<(), ChangeRejection>(
                ChangeRejection::VersionGap { expected: (v + 1) as i32, received: requested },
            )
            &&& requested == v + 1 ==> version_verdict(current, requested) is Ok
        },
{
}

/// The verdict on the version of a change (see `version_verdict`); the
/// version after the current one must exist.
pub fn check_change_version(current: Option<i32>, requested: i32) -> (r: Result<(), ChangeRejection>)
    requires
        current matches Some(v) ==> v < i32::MAX,
    ensures
        r == version_verdict(current, requested),
{
    match current {
        None => Err(ChangeRejection::DocumentNotFound),
        Some(v) => {
            if requested <= v {
                Err(ChangeRejection::VersionNotNewer { expected: v + 1, received: requested })
            } else if requested > v + 1 {
                Err(ChangeRejection::VersionGap { expected: v + 1, received: requested })
            } else {
                Ok(())
            }
        },
    }
}

/// The version of the open document `uri`, if it is open.
pub open spec fn open_version(m: DocumentManager, uri: Seq<char>) -> Option<i32> {
    let j = entry_index(m.open_view(), uri);
    if j >= 0 {
        Some(m.open_view()[j].1)
    } else {
        None
    }
}

/// Checks a change's version, then applies it: a change whose version is
/// not exactly the next one is refused and changes nothing; an accepted one
/// is applied as `DocumentManager::did_change` applies it.
pub fn validate_document_change(
    manager: &mut DocumentManager,
    uri: &str,
    version: i32,
    changes: Vec<TextDocumentContentChangeEvent>,
) -> (r: Result<(), ChangeRejection>)
    requires
        old(manager).wf(),
        change_allowed(old(manager).open_view(), uri@, version, changes@),
        open_version(*old(manager), uri@) matches Some(v) ==> v < i32::MAX,
    ensures
        final(manager).wf(),
        final(manager).cache_view() == old(manager).cache_view(),
        version_verdict(open_version(*old(manager), uri@), version) matches Err(e) ==> r == Err::<
            (),
            ChangeRejection,
        >(e) && final(manager).open_view() == old(manager).open_view(),
        version_verdict(open_version(*old(manager), uri@), version) is Ok ==> {
            let j = entry_index(old(manager).open_view(), uri@);
            let d = old(manager).open_view()[j];
            match changes_outcome(d.2, changes@) {
                ChangeOutcome::Applied(t) => r is Ok && final(manager).open_view()
                    == old(manager).open_view().update(j, (uri@, version, t, d.3)),
                ChangeOutcome::Failed(t) => r == Err::<(), ChangeRejection>(ChangeRejection::ChangeFailed)
                    && final(manager).open_view() == old(manager).open_view().update(
                    j,
                    (uri@, version, t, d.3),
                ),
                ChangeOutcome::Crash => false,
            }
        },
{
    proof {
        crate::document::lemma_entry_index(manager.open_view(), uri@);
    }
    let current = match manager.get_document(uri) {
        Some(d) => {
            assert(crate::document::document_model(*d).1 == d.version);
            Some(d.version)
        },
        None => None,
    };
    assert(current == open_version(*manager, uri@));
    if let Err(e) = check_change_version(current, version) {
        return Err(e);
    }
    match manager.did_change(uri, version, changes) {
        Ok(()) => Ok(()),
        Err(_) => Err(ChangeRejection::ChangeFailed),
    }
}

/// What a compilation of a document compiles: its module name and its path
/// relative to the project root.
pub open spec fn compile_target_of(uri: Seq<char>, project_root: Seq<char>) -> Option<(Seq<char>, Seq<char>)> {
    match file_path_of(uri) {
        Some(p) => match (module_name_of(p, project_root), relative_path_of(p, project_root)) {
            (Some(m), Some(rel)) => Some((m, rel)),
            _ => None,
        },
        None => None,
    }
}

/// What a compilation of the document `uri` compiles (see
/// `compile_target_of`); none when the URI is no file URL or the file has no
/// module name in the project.
pub fn compile_target(uri: &str, project_root: &str) -> (r: Option<(String, String)>)
    ensures
        r is Some <==> compile_target_of(uri@, project_root@) is Some,
        r matches Some(t) ==> compile_target_of(uri@, project_root@) == Some((t.0@, t.1@)),
{
    let path = match uri_file_path(uri) {
        Some(p) => p,
        None => return None,
    };
    let module_name = match module_name_from_path(path.as_str(), project_root) {
        Ok(m) => m,
        Err(_) => return None,
    };
    match uri_to_relative_path(uri, project_root) {
        Ok(rel) => Some((module_name, rel)),
        Err(_) => None,
    }
}

pub open spec fn has_file(g: Seq<(Seq<char>, Seq<DiagnosticModel>)>, uri: Seq<char>) -> bool {
    exists|i: int| 0 <= i < g.len() && (#[trigger] g[i]).0 == uri
}

/// What the server publishes after compiling the document `uri`: nothing
/// from a successful compilation; else the diagnostics of each file of the
/// compiler's report (`report`, none when it could not be read); and an empty
/// list for the document itself when the report has nothing for it.
pub open spec fn publication(
    uri: Seq<char>,
    success: bool,
    report: Option<Seq<(Seq<char>, Seq<DiagnosticModel>)>>,
) -> Seq<(Seq<char>, Seq<DiagnosticModel>)> {
    let groups = if success {
        Seq::empty()
    } else {
        match report {
            Some(g) => g,
            None => Seq::empty(),
        }
    };
    if has_file(groups, uri) {
        groups
    } else {
        groups.push((uri, Seq::empty()))
    }
}

/// A compilation always publishes for the compiled document, and a
/// successful one publishes nothing else; a failed one publishes every file
/// of the compiler's report, in its order, and at most the document besides.
pub proof fn law_publication_covers_document(
    uri: Seq<char>,
    success: bool,
    report: Option<Seq<(Seq<char>, Seq<DiagnosticModel>)>>,
)
    ensures
        has_file(publication(uri, success, report), uri),
        success ==> publication(uri, success, report) == seq![(uri, Seq::<DiagnosticModel>::empty())],
        !success && report is Some ==> publication(uri, success, report).take(report->0.len() as int)
            == report->0,
        !success && report is Some ==> publication(uri, success, report).len() <= report->0.len() + 1,
{
    let groups = if success {
        Seq::<(Seq<char>, Seq<DiagnosticModel>)>::empty()
    } else {
        match report {
            Some(g) => g,
            None => Seq::empty(),
        }
    };
    if !has_file(groups, uri) {
        let p = groups.push((uri, Seq::<DiagnosticModel>::empty()));
        assert(p[groups.len() as int].0 == uri);
    }
    if success {
        assert(groups.push((uri, Seq::<DiagnosticModel>::empty())) =~= seq![(uri, Seq::<DiagnosticModel>::empty())]);
    } else if report is Some {
        assert(groups.push((uri, Seq::<DiagnosticModel>::empty())).take(groups.len() as int) =~= groups);
        assert(groups.take(groups.len() as int) =~= groups);
    }
}

/// The diagnostics to publish after a compilation (see `publication`).
pub fn diagnostics_to_publish(uri: &str, success: bool, report: Option<DiagnosticsMap>) -> (r: Vec<FileDiagnostics>)
    ensures
        crate::diagnostics::map_model(DiagnosticsMap { files: r }) == publication(
            uri@,
            success,
            match report {
                Some(m) => Some(map_model(m)),
                None => None,
            },
        ),
{
    let mut files: Vec<FileDiagnostics> = if success {
        Vec::new()
    } else {
        match report {
            Some(m) => m.files,
            None => Vec::new(),
        }
    };
    let ghost groups = map_model(DiagnosticsMap { files });
    let mut found = false;
    let mut i: usize = 0;
    while i < files.len()
        invariant
            0 <= i <= files@.len(),
            groups == map_model(DiagnosticsMap { files }),
            found == exists|k: int| 0 <= k < i && (#[trigger] groups[k]).0 == uri@,
        decreases files.len() - i,
    {
        assert(groups[i as int].0 == files@[i as int].uri@);
        if crate::ordering::str_equal(files[i].uri.as_str(), uri) {
            found = true;
        }
        i = i + 1;
    }
    assert(groups.len() == files@.len());
    assert(found == has_file(groups, uri@));
    if !found {
        let ghost before = files@;
        files.push(FileDiagnostics { uri: uri.to_string(), diagnostics: Vec::new() });
        assert(map_model(DiagnosticsMap { files }) =~= groups.push((uri@, Seq::<DiagnosticModel>::empty()))) by {
            assert forall|k: int| 0 <= k < files@.len() implies #[trigger] map_model(DiagnosticsMap { files })[k]
                == groups.push((uri@, Seq::<DiagnosticModel>::empty()))[k] by {
                if k < before.len() {
                    assert(files@[k] == before[k]);
                } else {
                    assert(crate::diagnostics::diagnostic_models(files@[k].diagnostics@) =~= Seq::<DiagnosticModel>::empty());
                }
            }
        }
    }
    files
}

} // verus!
