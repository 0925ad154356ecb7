use gren_lsp::completion::{
    extract_module_access, extract_word_prefix, is_type_context, should_suggest_keywords,
    CompletionItemKind, Documentation,
};
use gren_lsp::completion_items::{
    complete_module_members, local_variable_to_completion_item, symbol_to_completion_item,
};
use gren_lsp::import_completion::{
    complete_unimported_symbols, filter_unimported_symbols, format_symbol_detail,
    symbol_to_completion_kind,
};
use gren_lsp::imports::ImportVariant;
use gren_lsp::protocol::{Position, Range};
use gren_lsp::scope::{LocalVariable, LocalVariableKind};
use gren_lsp::symbols::{ImportInfo, Symbol, SymbolKind};

fn sym(name: &str, kind: SymbolKind, container: Option<&str>, signature: Option<&str>) -> Symbol {
    Symbol::new(
        name.to_string(),
        kind,
        "file:///src/Utils.gren",
        Range { start: Position { line: 0, character: 0 }, end: Position { line: 0, character: 3 } },
        container.map(|s| s.to_string()),
        signature.map(|s| s.to_string()),
        None,
    )
}

#[test]
fn test_extract_word_prefix() {
    assert_eq!(extract_word_prefix("hello wo"), "wo");
    assert_eq!(extract_word_prefix("  func"), "func");
    assert_eq!(extract_word_prefix("Module."), "");
    assert_eq!(extract_word_prefix("Module.mem"), "mem");
    assert_eq!(extract_word_prefix(""), "");
}

#[test]
fn test_extract_module_access() {
    assert_eq!(extract_module_access("Module."), Some("Module".to_string()));
    assert_eq!(extract_module_access("Http.Request."), Some("Http.Request".to_string()));
    assert_eq!(extract_module_access("  Module.func"), Some("Module".to_string()));
    assert_eq!(extract_module_access("lowercase."), None);
    assert_eq!(extract_module_access("no dot"), None);
}

#[test]
fn test_is_type_context() {
    assert!(is_type_context("name : "));
    assert!(is_type_context("func : String -> "));
    assert!(is_type_context("type MyType "));
    assert!(!is_type_context("let x = "));
    assert!(!is_type_context("if condition"));
}

#[test]
fn test_should_suggest_keywords() {
    assert!(should_suggest_keywords("  ", ""));
    assert!(should_suggest_keywords("= ", ""));
    assert!(should_suggest_keywords("when ", ""));
    assert!(!should_suggest_keywords("Module.func", "func"));
}

#[test]
fn symbol_item_takes_type_after_colon() {
    let s = sym("helper", SymbolKind::FUNCTION, Some("Utils"), Some("helper : String -> String"));
    let item = symbol_to_completion_item(&s);
    assert_eq!(item.label, "helper");
    assert_eq!(item.kind, Some(CompletionItemKind::Function));
    assert_eq!(item.detail, Some("String -> String".to_string()));
    match item.documentation {
        Some(Documentation::Markdown(m)) => assert_eq!(m, "```gren\nhelper : String -> String\n```"),
        _ => panic!("expected markdown documentation"),
    }
    let plain = sym("x", SymbolKind::CONSTANT, Some("Utils"), None);
    let item = symbol_to_completion_item(&plain);
    assert_eq!(item.detail, Some("from Utils".to_string()));
    assert!(item.documentation.is_none());
}

#[test]
fn variable_item_shows_type_hint() {
    let v = LocalVariable {
        name: "count".to_string(),
        type_hint: Some("Int".to_string()),
        definition_range: Range { start: Position { line: 0, character: 0 }, end: Position { line: 0, character: 0 } },
        scope_depth: 0,
        kind: LocalVariableKind::LetBinding,
    };
    let item = local_variable_to_completion_item(&v);
    assert_eq!(item.label, "count");
    assert_eq!(item.kind, Some(CompletionItemKind::Variable));
    assert_eq!(item.detail, Some("local variable".to_string()));
    match item.documentation {
        Some(Documentation::String(d)) => assert_eq!(d, "Type: Int"),
        _ => panic!("expected text documentation"),
    }
}

#[test]
fn module_members_filtered_and_sorted() {
    let symbols = vec![
        sym("map", SymbolKind::FUNCTION, Some("List"), None),
        sym("filter", SymbolKind::FUNCTION, Some("List"), None),
        sym("mapIndexed", SymbolKind::FUNCTION, Some("List"), None),
    ];
    let items = complete_module_members(symbols, "ma");
    let labels: Vec<String> = items.iter().map(|i| i.label.clone()).collect();
    assert_eq!(labels, vec!["map".to_string(), "mapIndexed".to_string()]);
}

#[test]
fn unimported_symbols_skip_exposed_ones() {
    let imports = vec![ImportInfo::new(
        "file:///src/Main.gren",
        "Utils".to_string(),
        Some(vec!["helper".to_string()]),
        None,
        false,
    )];
    let symbols = vec![
        sym("helper", SymbolKind::FUNCTION, Some("Utils"), None),
        sym("other", SymbolKind::FUNCTION, Some("Utils"), None),
    ];
    let kept = filter_unimported_symbols(symbols, &imports);
    assert_eq!(kept.len(), 1);
    assert_eq!(kept[0].name, "other");
}

#[test]
fn import_completion_offers_two_variants() {
    let symbols = vec![sym("parse", SymbolKind::FUNCTION, Some("Json"), Some("parse : String -> Value"))];
    let items = complete_unimported_symbols(symbols, &Vec::new(), "module Main exposing (..)\n");
    assert_eq!(items.len(), 2);
    assert_eq!(items[0].import_variant, ImportVariant::Exposed);
    assert_eq!(items[0].completion_item.label, "parse");
    assert_eq!(items[0].completion_item.sort_text, Some("1_parse".to_string()));
    let edits = items[0].completion_item.additional_text_edits.clone().unwrap();
    assert_eq!(edits.len(), 1);
    assert_eq!(edits[0].new_text, "import Json exposing (parse)\n");
    assert_eq!(edits[0].range.start, Position { line: 2, character: 0 });
    assert_eq!(items[1].import_variant, ImportVariant::Qualified);
    assert_eq!(items[1].completion_item.label, "Json.parse");
    assert_eq!(items[1].completion_item.sort_text, Some("2_Json.parse".to_string()));
    let edits = items[1].completion_item.additional_text_edits.clone().unwrap();
    assert_eq!(edits[0].new_text, "import Json\n");
}

#[test]
fn import_detail_and_kind() {
    let s = sym("Decoder", SymbolKind::STRUCT, Some("Json"), None);
    assert_eq!(symbol_to_completion_kind(&s), CompletionItemKind::Class);
    assert_eq!(format_symbol_detail(&s, ImportVariant::Qualified, "Json"), "unknown\n📦 import Json");
    let v = sym("x", SymbolKind::VARIABLE, Some("Json"), None);
    assert_eq!(symbol_to_completion_kind(&v), CompletionItemKind::Value);
}
