use gren_lsp::compiler::{Position as GrenPosition, Problem, Region};
use gren_lsp::diagnostics::{
    count_by_severity, filter_by_severity, Diagnostic, DiagnosticSeverity, DiagnosticTag,
    DiagnosticsConverter, DiagnosticsMap, FileDiagnostics,
};
use gren_lsp::protocol::{Position, Range};

fn origin() -> Range {
    Range { start: Position { line: 0, character: 0 }, end: Position { line: 0, character: 0 } }
}

fn diag(severity: DiagnosticSeverity, message: &str) -> Diagnostic {
    Diagnostic {
        range: origin(),
        severity: Some(severity),
        code: None,
        source: Some("test".to_string()),
        message: message.to_string(),
        tags: None,
    }
}

#[test]
fn test_diagnostics_converter_creation() {
    let converter = DiagnosticsConverter::new("/tmp/project".to_string());
    assert_eq!(converter.project_root(), "/tmp/project");
}

#[test]
fn test_gren_region_to_lsp_range() {
    let converter = DiagnosticsConverter::new("/tmp/project".to_string());
    let gren_region = Region {
        start: GrenPosition { line: 1, column: 1 },
        end: GrenPosition { line: 1, column: 5 },
    };
    let lsp_range = converter.gren_region_to_lsp_range(&gren_region).unwrap();
    assert_eq!(lsp_range.start.line, 0);
    assert_eq!(lsp_range.start.character, 0);
    assert_eq!(lsp_range.end.line, 0);
    assert_eq!(lsp_range.end.character, 4);
}

#[test]
fn test_determine_severity() {
    let converter = DiagnosticsConverter::new("/tmp/project".to_string());
    assert_eq!(converter.determine_severity("SYNTAX ERROR"), DiagnosticSeverity::ERROR);
    assert_eq!(converter.determine_severity("TYPE MISMATCH"), DiagnosticSeverity::ERROR);
    assert_eq!(converter.determine_severity("UNUSED VARIABLE"), DiagnosticSeverity::WARNING);
    assert_eq!(converter.determine_severity("HINT"), DiagnosticSeverity::INFORMATION);
    assert_eq!(converter.determine_severity("UNKNOWN ISSUE"), DiagnosticSeverity::ERROR);
}

#[test]
fn test_determine_tags() {
    let converter = DiagnosticsConverter::new("/tmp/project".to_string());
    let unused_tags = converter.determine_tags("UNUSED VARIABLE");
    assert!(unused_tags.is_some());
    assert!(unused_tags.unwrap().contains(&DiagnosticTag::UNNECESSARY));
    let deprecated_tags = converter.determine_tags("DEPRECATED FUNCTION");
    assert!(deprecated_tags.is_some());
    assert!(deprecated_tags.unwrap().contains(&DiagnosticTag::DEPRECATED));
    let no_tags = converter.determine_tags("SYNTAX ERROR");
    assert!(no_tags.is_none());
}

#[test]
fn test_problem_to_diagnostic() {
    let converter = DiagnosticsConverter::new("/tmp/project".to_string());
    let problem = Problem {
        title: "SYNTAX ERROR".to_string(),
        region: Region {
            start: GrenPosition { line: 2, column: 5 },
            end: GrenPosition { line: 2, column: 10 },
        },
        message: vec!["Expected closing parenthesis".to_string()],
    };
    let diagnostic = converter.problem_to_diagnostic(&problem).unwrap();
    assert_eq!(diagnostic.range.start.line, 1);
    assert_eq!(diagnostic.range.start.character, 4);
    assert_eq!(diagnostic.severity, Some(DiagnosticSeverity::ERROR));
    assert!(diagnostic.message.contains("SYNTAX ERROR"));
    assert!(diagnostic.message.contains("Expected closing parenthesis"));
    assert_eq!(diagnostic.source, Some("gren-compiler".to_string()));
}

#[test]
fn test_diagnostics_utils_filter_by_severity() {
    let diagnostics = DiagnosticsMap {
        files: vec![FileDiagnostics {
            uri: "file:///test.gren".to_string(),
            diagnostics: vec![diag(DiagnosticSeverity::ERROR, "Error"), diag(DiagnosticSeverity::WARNING, "Warning")],
        }],
    };
    let errors_only = filter_by_severity(&diagnostics, DiagnosticSeverity::ERROR);
    assert_eq!(errors_only.get("file:///test.gren").unwrap().len(), 1);
    let warnings_and_errors = filter_by_severity(&diagnostics, DiagnosticSeverity::WARNING);
    assert_eq!(warnings_and_errors.get("file:///test.gren").unwrap().len(), 2);
}

#[test]
fn test_diagnostics_utils_count_by_severity() {
    let diagnostics = DiagnosticsMap {
        files: vec![FileDiagnostics {
            uri: "file:///test.gren".to_string(),
            diagnostics: vec![
                diag(DiagnosticSeverity::ERROR, "Error 1"),
                diag(DiagnosticSeverity::ERROR, "Error 2"),
                diag(DiagnosticSeverity::WARNING, "Warning"),
            ],
        }],
    };
    let (errors, warnings, info, hints) = count_by_severity(&diagnostics);
    assert_eq!(errors, 2);
    assert_eq!(warnings, 1);
    assert_eq!(info, 0);
    assert_eq!(hints, 0);
}

#[test]
fn problem_message_joins_lines() {
    let converter = DiagnosticsConverter::new("/p".to_string());
    let problem = Problem {
        title: "NAMING ERROR".to_string(),
        region: Region { start: GrenPosition { line: 3, column: 1 }, end: GrenPosition { line: 3, column: 2 } },
        message: vec!["first".to_string(), "second".to_string()],
    };
    let d = converter.problem_to_diagnostic(&problem).unwrap();
    assert_eq!(d.message, "NAMING ERROR: first\nsecond");
}
