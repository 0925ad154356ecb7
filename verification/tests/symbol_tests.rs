use gren_lsp::local_scope::{local_definition, ScopeFacts, ScopeKind, SiteKind};
use gren_lsp::imports::ImportManager;
use gren_lsp::protocol::{Position, Range};
use gren_lsp::symbols::{i32_to_symbol_kind, symbol_kind_to_i32, ImportInfo, Symbol, SymbolKind};
use gren_lsp::tree_sitter_queries::ImportInfo as ParsedImport;

#[test]
fn test_symbol_kind_conversion() {
    assert_eq!(symbol_kind_to_i32(SymbolKind::FUNCTION), 12);
    assert_eq!(i32_to_symbol_kind(12), SymbolKind::FUNCTION);
    assert_eq!(symbol_kind_to_i32(SymbolKind::VARIABLE), 13);
    assert_eq!(i32_to_symbol_kind(13), SymbolKind::VARIABLE);
}

#[test]
fn test_symbol_lsp_conversion() {
    let range = Range { start: Position { line: 1, character: 5 }, end: Position { line: 1, character: 15 } };
    let symbol = Symbol::new(
        "myFunction".to_string(),
        SymbolKind::FUNCTION,
        "file:///test.gren",
        range,
        Some("MyModule".to_string()),
        Some("myFunction : Int -> String".to_string()),
        Some("Converts int to string".to_string()),
    );
    let symbol_info = symbol.to_symbol_information().unwrap();
    assert_eq!(symbol_info.name, "myFunction");
    assert_eq!(symbol_info.kind, SymbolKind::FUNCTION);
    assert_eq!(symbol_info.location.uri, "file:///test.gren");
    assert_eq!(symbol_info.container_name, Some("MyModule".to_string()));
    let doc_symbol = symbol.to_document_symbol().unwrap();
    assert_eq!(doc_symbol.name, "myFunction");
    assert_eq!(doc_symbol.kind, SymbolKind::FUNCTION);
    assert_eq!(doc_symbol.detail, Some("myFunction : Int -> String".to_string()));
}

#[test]
fn test_import_info_creation() {
    let import = ParsedImport::new(
        "file:///test.gren",
        "Http.Request".to_string(),
        Some(vec!["get".to_string(), "post".to_string()]),
        Some("Request".to_string()),
        false,
    );
    assert_eq!(import.source_uri, "file:///test.gren");
    assert_eq!(import.imported_module, "Http.Request");
    assert_eq!(import.imported_symbols, Some(vec!["get".to_string(), "post".to_string()]));
    assert_eq!(import.alias_name, Some("Request".to_string()));
    assert!(!import.exposing_all);
}

#[test]
fn test_format_import_statement() {
    let manager = ImportManager::new().unwrap();
    assert_eq!(manager.format_import_statement("Utils", &[]), "import Utils");
    assert_eq!(manager.format_import_statement("Utils", &["helper".to_string()]), "import Utils exposing (helper)");
    assert_eq!(
        manager.format_import_statement("Utils", &["zzz".to_string(), "aaa".to_string(), "mmm".to_string()]),
        "import Utils exposing (aaa, mmm, zzz)"
    );
}

#[test]
fn test_calculate_import_position() {
    let manager = ImportManager::new().unwrap();
    assert_eq!(manager.calculate_import_position(&[]), Position { line: 2, character: 0 });
    let imports = vec![ImportInfo::new("file:///test.gren", "Utils".to_string(), Some(vec!["helper".to_string()]), None, false)];
    assert_eq!(manager.calculate_import_position(&imports), Position { line: 4, character: 0 });
}

#[test]
fn stored_import_keeps_exposed_names() {
    let info = ImportInfo::new("file:///m.gren", "List".to_string(), Some(vec!["map".to_string(), "foldl".to_string()]), None, false);
    assert_eq!(info.get_imported_symbols(), vec!["map".to_string(), "foldl".to_string()]);
    let none = ImportInfo::new("file:///m.gren", "List".to_string(), None, None, true);
    assert!(none.get_imported_symbols().is_empty());
}

#[test]
fn scope_levels_follow_the_node_roles() {
    let names = vec![gren_lsp::local_scope::NamedRange {
        text: "x".to_string(),
        range: gren_lsp::protocol::Range {
            start: gren_lsp::protocol::Position { line: 1, character: 4 },
            end: gren_lsp::protocol::Position { line: 1, character: 5 },
        },
    }];
    let nodes = vec![
        gren_lsp::scope::LevelNames { role: gren_lsp::scope::LevelRole::Other, names: vec![] },
        gren_lsp::scope::LevelNames { role: gren_lsp::scope::LevelRole::LetIn, names: names.clone() },
        gren_lsp::scope::LevelNames { role: gren_lsp::scope::LevelRole::Declaration, names },
    ];
    let levels = gren_lsp::scope::scope_levels_of(&nodes);
    assert_eq!(levels.len(), 3);
    assert!(levels[0].let_bindings.is_empty() && levels[0].parameters.is_empty());
    assert_eq!(levels[1].let_bindings.len(), 1);
    assert_eq!(levels[1].let_bindings[0].scope_depth, 1);
    assert!(levels[1].parameters.is_empty());
    assert_eq!(levels[2].parameters[0].name, "x");
    assert_eq!(levels[2].parameters[0].scope_depth, 2);
}

fn nr(text: &str, line: u32, col: u32) -> gren_lsp::local_scope::NamedRange {
    gren_lsp::local_scope::NamedRange {
        text: text.to_string(),
        range: gren_lsp::protocol::Range {
            start: gren_lsp::protocol::Position { line, character: col },
            end: gren_lsp::protocol::Position { line, character: col + text.len() as u32 },
        },
    }
}

fn site(kind: gren_lsp::local_scope::SiteKind, text: &str, line: u32, col: u32, names: Vec<gren_lsp::local_scope::NamedRange>) -> gren_lsp::local_scope::BindingSite {
    let r = nr(text, line, col);
    gren_lsp::local_scope::BindingSite { kind, text: r.text, range: r.range, names }
}

#[test]
fn local_definitions_take_the_innermost_binding() {
    use_local_definitions();
}

fn use_local_definitions() {
    let when_branch = ScopeFacts {
        kind: ScopeKind::WhenBranch,
        sites: vec![site(SiteKind::Pattern, "Just x", 5, 4, vec![nr("x", 5, 9)])],
    };
    let let_in = ScopeFacts {
        kind: ScopeKind::LetIn,
        sites: vec![site(SiteKind::Name, "x", 3, 8, vec![]), site(SiteKind::Name, "helper", 4, 8, vec![])],
    };
    let decl = ScopeFacts {
        kind: ScopeKind::ValueDeclaration,
        sites: vec![site(SiteKind::Name, "main", 0, 0, vec![]), site(SiteKind::Name, "x", 0, 5, vec![])],
    };
    let other = ScopeFacts { kind: ScopeKind::Other, sites: vec![site(SiteKind::Name, "x", 9, 0, vec![])] };
    let scopes = vec![other, when_branch, let_in, decl];
    assert_eq!(local_definition(&scopes, "x").map(|r| r.start.line), Some(5));
    assert_eq!(local_definition(&scopes, "helper").map(|r| r.start.line), Some(4));
    assert_eq!(local_definition(&scopes, "main").map(|r| r.start.line), Some(0));
    assert!(local_definition(&scopes, "nothing").is_none());
    assert!(local_definition(&scopes[2..].to_vec(), "x").map(|r| r.start.line) == Some(3));
}
