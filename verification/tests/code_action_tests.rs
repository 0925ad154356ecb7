use gren_lsp::code_actions::{
    extract_type_mismatch_fix, extract_undefined_symbol, filter_actions, find_import_at_range,
    find_import_insertion_position, generate_add_type_signature_action, handle_code_action,
    is_missing_import_error, is_type_mismatch_error, is_unused_import_warning, position_in_range,
    ranges_overlap, suggest_type_conversion, AnnotationName, CodeActionKind, FunctionDefinition,
};
use gren_lsp::diagnostics::{Diagnostic, DiagnosticSeverity};
use gren_lsp::protocol::{Position, Range};
use gren_lsp::symbols::{Symbol, SymbolKind};

fn range(sl: u32, sc: u32, el: u32, ec: u32) -> Range {
    Range { start: Position { line: sl, character: sc }, end: Position { line: el, character: ec } }
}

fn diag(message: &str, r: Range) -> Diagnostic {
    Diagnostic { range: r, severity: Some(DiagnosticSeverity::ERROR), code: None, source: None, message: message.to_string(), tags: None }
}

#[test]
fn message_classes() {
    assert!(is_missing_import_error("I cannot find a `map` variable"));
    assert!(is_type_mismatch_error("expected Int but got String"));
    assert!(!is_type_mismatch_error("expected Int"));
    assert!(is_unused_import_warning("unused import Html"));
}

#[test]
fn undefined_symbol_from_quotes_or_words() {
    assert_eq!(extract_undefined_symbol("Cannot find 'helper' here"), Some("helper".to_string()));
    assert_eq!(extract_undefined_symbol("I cannot find helper in scope"), Some("helper".to_string()));
    assert_eq!(extract_undefined_symbol("I cannot find helper"), None);
    assert_eq!(extract_undefined_symbol("nothing"), None);
}

#[test]
fn type_conversions() {
    assert_eq!(suggest_type_conversion("Int", "String"), Some("String.toInt".to_string()));
    assert_eq!(suggest_type_conversion("Maybe Int", "Int"), Some("Just".to_string()));
    assert_eq!(suggest_type_conversion("Maybe Int", "Float"), None);
    assert_eq!(suggest_type_conversion("List", "Array"), Some("Array.toList".to_string()));
    assert_eq!(
        extract_type_mismatch_fix("type mismatch: expected Float but got Int."),
        Some(("Float".to_string(), "Int".to_string(), "toFloat".to_string()))
    );
    assert_eq!(
        extract_type_mismatch_fix("cannot match String with Int."),
        Some(("Int".to_string(), "String".to_string(), "String.toInt".to_string()))
    );
    assert_eq!(extract_type_mismatch_fix("expected Foo but got Bar"), None);
}

#[test]
fn ranges_and_positions() {
    assert!(ranges_overlap(&range(0, 0, 0, 5), &range(0, 5, 1, 0)));
    assert!(!ranges_overlap(&range(0, 0, 0, 4), &range(0, 5, 1, 0)));
    assert!(position_in_range(&Position { line: 1, character: 0 }, &range(0, 3, 2, 0)));
    assert!(!position_in_range(&Position { line: 0, character: 2 }, &range(0, 3, 2, 0)));
    assert_eq!(find_import_insertion_position(&vec![1, 4, 2]), Position { line: 4, character: 0 });
    assert_eq!(find_import_insertion_position(&Vec::new()), Position { line: 0, character: 0 });
    let imports = vec![range(2, 0, 2, 12), range(3, 0, 3, 10)];
    assert_eq!(find_import_at_range(&imports, &range(3, 7, 3, 9)), Some(range(3, 0, 4, 0)));
    assert_eq!(find_import_at_range(&imports, &range(9, 0, 9, 1)), None);
}

#[test]
fn type_signature_action() {
    let functions = vec![FunctionDefinition { name: "greet".to_string(), range: range(4, 0, 5, 10) }];
    let none: Vec<AnnotationName> = Vec::new();
    let a = generate_add_type_signature_action("file:///m.gren", &functions, &none, &range(4, 2, 4, 2)).unwrap();
    assert_eq!(a.title, "Add type signature for greet");
    assert_eq!(a.kind, Some(CodeActionKind::RefactorRewrite));
    let edit = &a.edit.as_ref().unwrap().changes.as_ref().unwrap()[0].edits[0];
    assert_eq!(edit.new_text, "greet : ()\n");
    assert_eq!(edit.range, range(4, 0, 4, 0));
    let annotated = vec![AnnotationName { name: "greet".to_string(), end_row: 3 }];
    assert!(generate_add_type_signature_action("file:///m.gren", &functions, &annotated, &range(4, 2, 4, 2)).is_none());
}

#[test]
fn code_action_for_missing_import() {
    let d = diag("I cannot find 'decode' in scope", range(5, 0, 5, 6));
    let found = Some(vec![Symbol::new(
        "decode".to_string(),
        SymbolKind::FUNCTION,
        "file:///src/Json.gren",
        range(0, 0, 0, 6),
        Some("Json".to_string()),
        None,
        None,
    )]);
    let actions = handle_code_action(
        "file:///m.gren",
        &range(5, 0, 5, 0),
        &vec![d],
        &None,
        &vec![found],
        Position { line: 2, character: 0 },
        &Vec::new(),
        &Vec::new(),
        &Vec::new(),
    )
    .unwrap();
    assert_eq!(actions.len(), 1);
    assert_eq!(actions[0].title, "Import decode from Json");
    assert_eq!(actions[0].is_preferred, Some(true));
    let e = &actions[0].edit.as_ref().unwrap().changes.as_ref().unwrap()[0].edits[0];
    assert_eq!(e.new_text, "import Json exposing (decode)\n");
    let kept = filter_actions(actions, &Some(vec!["refactor".to_string()]));
    assert!(kept.is_empty());
}
