use gren_lsp::goto_definition::{find_best_definition, find_local_definition, DefinitionResult};
use gren_lsp::hover::{
    extract_hover_info, format_hover_response, extract_local_type_info, extract_nearby_documentation,
    node_to_range, DocComment, HoverInfo, MarkedString,
};
use gren_lsp::positions::position_to_byte_offset;
use gren_lsp::protocol::{Location, Position, Range};
use gren_lsp::scope::{LocalVariable, LocalVariableKind};
use gren_lsp::symbols::Symbol;

fn zero() -> Range {
    Range { start: Position { line: 0, character: 0 }, end: Position { line: 0, character: 0 } }
}

fn offsets_of_three_lines() {
    let content = "line1\nline2\nline3";
    assert_eq!(position_to_byte_offset(content, Position { line: 0, character: 0 }).unwrap(), 0);
    assert_eq!(position_to_byte_offset(content, Position { line: 1, character: 0 }).unwrap(), 6);
    assert_eq!(position_to_byte_offset(content, Position { line: 0, character: 2 }).unwrap(), 2);
}

#[test]
fn goto_definition_test_position_to_byte_offset() {
    offsets_of_three_lines();
}

#[test]
fn hover_test_position_to_byte_offset() {
    offsets_of_three_lines();
}

#[test]
fn scope_analysis_test_position_to_byte_offset() {
    offsets_of_three_lines();
}

#[test]
fn goto_definition_test_node_to_range() {
    let r = node_to_range(1, 2, 3, 4);
    assert_eq!(r.start, Position { line: 1, character: 2 });
    assert_eq!(r.end, Position { line: 3, character: 4 });
}

#[test]
fn hover_test_node_to_range() {
    let r = node_to_range(0, 0, 0, 7);
    assert_eq!(r.end.character, 7);
}

#[test]
fn tree_sitter_queries_test_node_to_range() {
    let r = node_to_range(5, 0, 6, 1);
    assert_eq!(r.start.line, 5);
    assert_eq!(r.end.line, 6);
}

fn test_symbol(uri: &str) -> Symbol {
    Symbol {
        id: Some(1),
        name: "testFunction".to_string(),
        kind: 12,
        uri: uri.to_string(),
        range_start_line: 5,
        range_start_char: 0,
        range_end_line: 5,
        range_end_char: 12,
        container: None,
        signature: Some("String -> String".to_string()),
        documentation: None,
        created_at: None,
    }
}

#[test]
fn test_definition_result_creation() {
    let location = Location { uri: "file:///test/Main.gren".to_string(), range: zero() };
    let symbol = test_symbol("file:///test/Main.gren");
    let result = DefinitionResult { location: location.clone(), symbol: symbol.clone(), is_local: true };
    assert_eq!(result.location.uri, location.uri);
    assert_eq!(result.symbol.name, "testFunction");
    assert!(result.is_local);
}

#[test]
fn best_definition_prefers_current_file() {
    let symbols = vec![test_symbol("file:///other/Utils.gren"), test_symbol("file:///test/Main.gren")];
    let d = find_best_definition(&symbols, "file:///test/Main.gren").unwrap();
    assert!(d.is_local);
    assert_eq!(d.location.uri, "file:///test/Main.gren");
    assert_eq!(d.location.range.start.line, 5);
    let d = find_best_definition(&symbols, "file:///elsewhere.gren").unwrap();
    assert!(!d.is_local);
    assert_eq!(d.location.uri, "file:///other/Utils.gren");
    assert!(find_best_definition(&Vec::new(), "file:///x.gren").is_none());
    assert!(find_best_definition(&vec![test_symbol("not a url")], "file:///x.gren").is_none());
}

#[test]
fn local_definition_is_a_variable() {
    let r = Range { start: Position { line: 2, character: 4 }, end: Position { line: 2, character: 7 } };
    let d = find_local_definition("acc", "file:///a.gren", Some(r)).unwrap();
    assert_eq!(d.symbol.kind, 13);
    assert_eq!(d.location.range, r);
    assert!(find_local_definition("acc", "file:///a.gren", None).is_none());
}

#[test]
fn test_hover_info_creation() {
    let hover_info = HoverInfo {
        type_info: Some("String -> String".to_string()),
        documentation: Some("Converts input to uppercase".to_string()),
        source_module: Some("String".to_string()),
        range: zero(),
        symbol_name: "toUpper".to_string(),
    };
    assert_eq!(hover_info.symbol_name, "toUpper");
    assert!(hover_info.type_info.is_some());
    assert!(hover_info.documentation.is_some());
}

#[test]
fn hover_response_parts() {
    let info = HoverInfo {
        type_info: Some("toUpper : String -> String".to_string()),
        documentation: None,
        source_module: Some("String".to_string()),
        range: zero(),
        symbol_name: "toUpper".to_string(),
    };
    let h = format_hover_response(info);
    assert_eq!(h.contents.len(), 2);
    match &h.contents[0] {
        MarkedString::LanguageString { language, value } => {
            assert_eq!(language, "gren");
            assert_eq!(value, "toUpper : String -> String");
        },
        _ => panic!("expected code"),
    }
    match &h.contents[1] {
        MarkedString::String(s) => assert_eq!(s, "from String"),
        _ => panic!("expected text"),
    }
    let bare = HoverInfo { type_info: None, documentation: None, source_module: None, range: zero(), symbol_name: "x".to_string() };
    let h = format_hover_response(bare);
    match &h.contents[0] {
        MarkedString::String(s) => assert_eq!(s, "Symbol: x"),
        _ => panic!("expected text"),
    }
}

#[test]
fn hover_source_module_from_file_stem() {
    let s = test_symbol("file:///proj/src/utils.gren");
    let info = extract_hover_info("lower_case_identifier", "testFunction".to_string(), zero(), &vec![s], "file:///proj/src/Main.gren", None, None).unwrap();
    assert_eq!(info.source_module, Some("Utils".to_string()));
    assert_eq!(info.type_info, Some("String -> String".to_string()));
    assert!(extract_hover_info("number_literal", "1".to_string(), zero(), &Vec::new(), "file:///a.gren", None, None).is_none());
}

#[test]
fn local_annotation_and_documentation() {
    let notes = vec!["  other : Int".to_string(), "greet : String -> String  ".to_string()];
    assert_eq!(extract_local_type_info(&notes, "greet"), Some("greet : String -> String".to_string()));
    assert_eq!(extract_local_type_info(&notes, "missing"), None);
    let comments = vec![
        DocComment { comment: "-- plain".to_string(), next_text: Some("greet = 1".to_string()) },
        DocComment { comment: "{-| Says hello. -}".to_string(), next_text: Some("greet : String".to_string()) },
    ];
    assert_eq!(extract_nearby_documentation(&comments, "greet"), Some("Says hello.".to_string()));
    assert_eq!(extract_nearby_documentation(&comments, "other"), None);
}

#[test]
fn test_local_variable_creation() {
    let var = LocalVariable {
        name: "test".to_string(),
        type_hint: Some("String".to_string()),
        definition_range: zero(),
        scope_depth: 1,
        kind: LocalVariableKind::Parameter,
    };
    assert_eq!(var.name, "test");
    assert_eq!(var.kind, LocalVariableKind::Parameter);
    assert_eq!(var.scope_depth, 1);
}
