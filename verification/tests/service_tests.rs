use gren_lsp::compiler::{
    availability_verdict, make_arguments, parse_compiler_output, CompileResult, CompilerError,
    CompilerOutput,
};
use gren_lsp::diagnostics::{Diagnostic, DiagnosticSeverity, DiagnosticsMap, FileDiagnostics};
use gren_lsp::document::{DocumentManager, TextDocumentContentChangeEvent};
use gren_lsp::lsp_service::{
    check_change_version, compile_target, diagnostics_to_publish, server_capabilities,
    validate_document_change, workspace_root_of, ChangeRejection, ClientCapabilities,
    TextDocumentClientCapabilities, WorkspaceClientCapabilities,
};
use gren_lsp::protocol::{Position, Range};

fn all_text_features() -> TextDocumentClientCapabilities {
    TextDocumentClientCapabilities {
        hover: true,
        completion: true,
        references: true,
        rename: true,
        document_symbol: true,
        code_action: true,
    }
}

#[test]
fn capabilities_follow_what_the_client_declares() {
    let full = server_capabilities(&ClientCapabilities {
        text_document: Some(all_text_features()),
        workspace: Some(WorkspaceClientCapabilities { symbol: true, file_operations: true }),
    });
    assert!(full.incremental_sync);
    assert!(full.hover_provider && full.definition_provider && full.references_provider);
    assert_eq!(full.rename_provider, Some(true));
    let completion = full.completion_provider.expect("completion offered");
    assert_eq!(completion.trigger_characters, vec![".".to_string()]);
    assert!(!completion.resolve_provider);
    assert_eq!(
        full.code_action_kinds.expect("code actions offered"),
        vec!["quickfix", "refactor.rewrite", "source.organizeImports", "source.fixAll"]
    );
    assert!(full.workspace_symbol_provider);
    let ws = full.workspace.expect("file operations offered");
    assert_eq!(ws.will_rename_filters.len(), 1);
    assert_eq!(ws.will_rename_filters[0].pattern.glob, "**/*.gren");

    let bare = server_capabilities(&ClientCapabilities { text_document: None, workspace: None });
    assert!(bare.incremental_sync);
    assert!(!bare.hover_provider && !bare.definition_provider);
    assert!(bare.completion_provider.is_none() && bare.rename_provider.is_none());
    assert!(bare.workspace.is_none() && !bare.workspace_symbol_provider);
}

#[test]
fn workspace_root_prefers_the_root_uri() {
    let root = workspace_root_of(
        Some("file:///home/me/project".to_string()),
        Some("/elsewhere".to_string()),
    );
    assert_eq!(root.as_deref(), Some("/home/me/project"));
    assert_eq!(workspace_root_of(None, Some("/only/path".to_string())).as_deref(), Some("/only/path"));
    assert!(workspace_root_of(None, None).is_none());
}

#[test]
fn change_versions_must_be_consecutive() {
    assert_eq!(check_change_version(Some(3), 4), Ok(()));
    assert_eq!(
        check_change_version(Some(3), 3),
        Err(ChangeRejection::VersionNotNewer { expected: 4, received: 3 })
    );
    assert_eq!(
        check_change_version(Some(3), 6),
        Err(ChangeRejection::VersionGap { expected: 4, received: 6 })
    );
    assert_eq!(check_change_version(None, 1), Err(ChangeRejection::DocumentNotFound));
}

#[test]
fn document_changes_are_checked_then_applied() {
    let mut manager = DocumentManager::new(4);
    manager
        .did_open("file:///m.gren".to_string(), 1, "gren".to_string(), "hello\nworld".to_string())
        .expect("open");
    let change = TextDocumentContentChangeEvent {
        range: Some(Range {
            start: Position { line: 1, character: 0 },
            end: Position { line: 1, character: 5 },
        }),
        range_length: None,
        text: "there".to_string(),
    };
    assert_eq!(
        validate_document_change(&mut manager, "file:///m.gren", 3, vec![change.clone()]),
        Err(ChangeRejection::VersionGap { expected: 2, received: 3 })
    );
    assert_eq!(manager.get_document("file:///m.gren").unwrap().get_text(), "hello\nworld");
    assert_eq!(validate_document_change(&mut manager, "file:///m.gren", 2, vec![change]), Ok(()));
    let doc = manager.get_document("file:///m.gren").unwrap();
    assert_eq!(doc.version, 2);
    assert_eq!(doc.get_text(), "hello\nthere");
    assert_eq!(
        validate_document_change(&mut manager, "file:///other.gren", 1, vec![]),
        Err(ChangeRejection::DocumentNotFound)
    );
}

#[test]
fn compile_target_names_the_module_and_its_path() {
    let target = compile_target("file:///work/app/src/Utils/Parser.gren", "/work/app");
    assert_eq!(target, Some(("Utils.Parser".to_string(), "src/Utils/Parser.gren".to_string())));
    assert!(compile_target("file:///elsewhere/Main.gren", "/work/app").is_none());
    assert!(compile_target("not a url", "/work/app").is_none());
}

fn one_error(uri: &str) -> FileDiagnostics {
    FileDiagnostics {
        uri: uri.to_string(),
        diagnostics: vec![Diagnostic {
            range: Range {
                start: Position { line: 0, character: 0 },
                end: Position { line: 0, character: 3 },
            },
            severity: Some(DiagnosticSeverity::ERROR),
            code: None,
            source: Some("gren".to_string()),
            message: "boom".to_string(),
            tags: None,
        }],
    }
}

#[test]
fn publication_always_covers_the_compiled_document() {
    let ok = diagnostics_to_publish("file:///a.gren", true, None);
    assert_eq!(ok.len(), 1);
    assert_eq!(ok[0].uri, "file:///a.gren");
    assert!(ok[0].diagnostics.is_empty());

    let report = DiagnosticsMap { files: vec![one_error("file:///b.gren")] };
    let failed = diagnostics_to_publish("file:///a.gren", false, Some(report));
    assert_eq!(failed.len(), 2);
    assert_eq!(failed[0].uri, "file:///b.gren");
    assert_eq!(failed[0].diagnostics.len(), 1);
    assert_eq!(failed[1].uri, "file:///a.gren");
    assert!(failed[1].diagnostics.is_empty());

    let own = DiagnosticsMap { files: vec![one_error("file:///a.gren")] };
    let mine = diagnostics_to_publish("file:///a.gren", false, Some(own));
    assert_eq!(mine.len(), 1);
    assert_eq!(mine[0].diagnostics[0].message, "boom");
}

#[test]
fn make_runs_report_json_without_output() {
    assert_eq!(
        make_arguments("Utils.Helper", false),
        vec!["make", "Utils.Helper", "--report=json", "--output=/dev/null"]
    );
    assert_eq!(make_arguments("Main", true).last().map(|s| s.as_str()), Some("--sourcemaps"));
}

#[test]
fn compiler_availability_needs_success_and_gren_in_help() {
    assert_eq!(
        availability_verdict(true, Some(0), "Usage: gren make".to_string(), String::new()),
        Ok(())
    );
    assert_eq!(
        availability_verdict(true, Some(0), "Usage: elm make".to_string(), String::new()),
        Err(CompilerError::NotGren("Usage: elm make".to_string()))
    );
    assert_eq!(
        availability_verdict(false, None, String::new(), "crashed".to_string()),
        Err(CompilerError::NonZeroExit { code: -1, stderr: "crashed".to_string() })
    );
}

#[test]
fn diagnostics_are_read_from_stderr_when_stdout_is_blank() {
    let r = CompileResult::from_run(false, Some(1), "  \n".to_string(), "{\"type\":\"error\"}".to_string());
    assert_eq!(r.output, "{\"type\":\"error\"}");
    let s = CompileResult::from_run(false, Some(1), "report".to_string(), "noise".to_string());
    assert_eq!(s.output, "report");
}

#[test]
fn blank_reports_are_no_report() {
    let none = parse_compiler_output("   ", Err("unused".to_string()));
    assert!(matches!(none, Ok(None)));
    let bad = parse_compiler_output("{oops", Err("expected value".to_string()));
    assert_eq!(bad.err(), Some(CompilerError::InvalidOutput("expected value".to_string())));
    let good = parse_compiler_output("{}", Ok(CompilerOutput::CompileErrors { errors: vec![] }));
    assert!(matches!(good, Ok(Some(CompilerOutput::CompileErrors { .. }))));
}
