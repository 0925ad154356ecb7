use gren_lsp::module_rename::{has_import_reference, DocumentImports};
use gren_lsp::import_rewriter::{rewrite_imports, ts_position_to_lsp_position, update_module_declaration, ModuleClause};
use gren_lsp::protocol::Position;
use gren_lsp::tree_sitter_queries::{
    extract_functions, extract_imports, extract_references, extract_types, ImportCapture, QueryCapture, QueryMatch,
};

fn cap(name: &str, text: &str, row: usize, col: usize, end_col: usize) -> QueryCapture {
    QueryCapture { name: name.to_string(), text: text.to_string(), start_row: row, start_column: col, end_row: row, end_column: end_col }
}

#[test]
fn functions_take_their_annotations() {
    let ms = vec![
        QueryMatch { pattern_index: 0, captures: vec![cap("function.name", "greet", 0, 0, 5), cap("function.type", "String -> String", 0, 8, 24)] },
        QueryMatch { pattern_index: 1, captures: vec![cap("function.declaration", "greet n = n", 1, 0, 11), cap("function.name", "greet", 1, 0, 5)] },
        QueryMatch { pattern_index: 1, captures: vec![cap("function.name", "other", 2, 0, 5)] },
    ];
    let syms = extract_functions("file:///M.gren", &ms, Some("Main"));
    assert_eq!(syms.len(), 2);
    assert_eq!(syms[0].name, "greet");
    assert_eq!(syms[0].signature, Some("greet : String -> String".to_string()));
    assert_eq!(syms[0].range_end_char, 5);
    assert_eq!(syms[0].container, Some("Main".to_string()));
    assert_eq!(syms[1].signature, None);
}

#[test]
fn custom_types_list_variants() {
    let ms = vec![
        QueryMatch { pattern_index: 0, captures: vec![cap("type.declaration", "type Color = Red | Blue", 0, 0, 23), cap("type.name", "Color", 0, 5, 10), cap("variant.name", "Red", 0, 13, 16), cap("variant.name", "Blue", 0, 19, 23)] },
        QueryMatch { pattern_index: 1, captures: vec![cap("alias.declaration", "type alias User = {}", 1, 0, 20), cap("alias.name", "User", 1, 11, 15)] },
    ];
    let syms = extract_types("file:///M.gren", &ms, None);
    assert_eq!(syms.len(), 2);
    assert_eq!(syms[0].signature, Some("type Color = Red | Blue".to_string()));
    assert_eq!(syms[0].kind, 10);
    assert_eq!(syms[1].signature, Some("type alias User".to_string()));
    assert_eq!(syms[1].kind, 23);
}

#[test]
fn references_skip_blank_and_underscore() {
    let cs = vec![cap("ref.function", "map", 0, 0, 3), cap("ref.variable", "_ignored", 0, 4, 12), cap("ref.declaration", "main", 1, 0, 4)];
    let refs = extract_references("file:///M.gren", &cs);
    assert_eq!(refs.len(), 2);
    assert_eq!(refs[0].reference_kind, "usage");
    assert_eq!(refs[1].reference_kind, "declaration");
}

#[test]
fn imports_group_by_clause() {
    let cs = vec![
        ImportCapture { clause: 7, name: "import.module".to_string(), text: "Http".to_string() },
        ImportCapture { clause: 9, name: "import.module".to_string(), text: "Json".to_string() },
        ImportCapture { clause: 7, name: "import.value".to_string(), text: "get".to_string() },
        ImportCapture { clause: 9, name: "import.all".to_string(), text: "..".to_string() },
        ImportCapture { clause: 7, name: "import.alias".to_string(), text: "H".to_string() },
    ];
    let imports = extract_imports("file:///M.gren", &cs);
    assert_eq!(imports.len(), 2);
    assert_eq!(imports[0].imported_module, "Http");
    assert_eq!(imports[0].imported_symbols, Some(vec!["get".to_string()]));
    assert_eq!(imports[0].alias_name, Some("H".to_string()));
    assert!(imports[1].exposing_all);
    assert_eq!(imports[1].imported_symbols, None);
}

#[test]
fn parser_points_to_protocol_positions() {
    let content = "aé b\nline";
    assert_eq!(ts_position_to_lsp_position(0, 4, content).unwrap(), Position { line: 0, character: 3 });
    assert!(ts_position_to_lsp_position(5, 0, content).is_err());
    assert!(ts_position_to_lsp_position(1, 9, content).is_err());
}

fn clause(text: &str, row: usize, name: &str, offset: usize) -> ModuleClause {
    ModuleClause {
        text: text.to_string(),
        start_row: row,
        start_column: 0,
        end_row: row,
        end_column: text.len(),
        module_name: name.to_string(),
        name_offset: offset,
    }
}

#[test]
fn test_rewrite_imports() {
    let content = "module Main exposing (..)\n\nimport Utils\nimport Other\n\nmain = Utils.helper \"test\"";
    let imported = vec!["Utils".to_string(), "Other".to_string()];
    let clauses = vec![clause("import Utils", 2, "Utils", 7), clause("import Other", 3, "Other", 7)];
    let edits = rewrite_imports(content, &imported, &clauses, "Utils", "Helpers").unwrap();
    assert_eq!(edits.len(), 1);
    assert_eq!(edits[0].new_text, "import Helpers");
    assert_eq!(edits[0].range.start.line, 2);
}

#[test]
fn test_rewrite_imports_with_alias() {
    let content = "import Utils as U\nimport Http.Client\n\nmain = U.helper (Client.get url)";
    let imported = vec!["Utils".to_string(), "Http.Client".to_string()];
    let clauses = vec![clause("import Utils as U", 0, "Utils", 7), clause("import Http.Client", 1, "Http.Client", 7)];
    let edits = rewrite_imports(content, &imported, &clauses, "Utils", "Helpers").unwrap();
    assert_eq!(edits.len(), 1);
    assert_eq!(edits[0].new_text, "import Helpers as U");
}

#[test]
fn test_rewrite_imports_nested_module() {
    let content = "import Http.Client\nimport Utils\n\nmain = Client.get url";
    let imported = vec!["Http.Client".to_string(), "Utils".to_string()];
    let clauses = vec![clause("import Http.Client", 0, "Http.Client", 7), clause("import Utils", 1, "Utils", 7)];
    let edits = rewrite_imports(content, &imported, &clauses, "Http.Client", "Network.Http").unwrap();
    assert_eq!(edits.len(), 1);
    assert_eq!(edits[0].new_text, "import Network.Http");
}

#[test]
fn test_update_module_declaration() {
    let content = "module Utils exposing (..)\n\nhelper : String -> String\nhelper s = s";
    let decls = vec![clause("module Utils exposing (..)", 0, "Utils", 7)];
    let edits = update_module_declaration(content, &decls, "Helpers").unwrap();
    assert_eq!(edits.len(), 1);
    assert_eq!(edits[0].new_text, "module Helpers exposing (..)");
    assert_eq!(edits[0].range.start.line, 0);
}

#[test]
fn test_has_import_reference() {
    let d = DocumentImports { uri: "file:///M.gren".to_string(), imported_modules: vec!["Utils".to_string()] };
    assert!(has_import_reference(&d, "Utils"));
    assert!(!has_import_reference(&d, "Other"));
}
