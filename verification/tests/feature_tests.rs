use gren_lsp::protocol::{Location, Position, Range};
use gren_lsp::module_rename::validate_rename;
use gren_lsp::references::handle_references;
use gren_lsp::rename::{handle_prepare_rename, handle_rename, RenameError};
use gren_lsp::import_rewriter::{clause_fits, point_is_sliceable, ModuleClause};
use gren_lsp::search::{get_workspace_symbols, query_fits_scoring, rank_scorable_results};
use gren_lsp::naming::{check_naming_convention, validate_new_name, NameError};
use gren_lsp::symbols::{Symbol, SymbolKind, SymbolReference};

fn range(sl: u32, sc: u32, el: u32, ec: u32) -> Range {
    Range { start: Position { line: sl, character: sc }, end: Position { line: el, character: ec } }
}

fn loc(uri: &str, r: Range) -> Location {
    Location { uri: uri.to_string(), range: r }
}

fn symbol(name: &str, uri: &str) -> Symbol {
    Symbol::new(name.to_string(), SymbolKind::FUNCTION, uri, range(0, 0, 0, 5), None, None, None)
}

fn reference(uri: &str, line: i32, kind: &str) -> SymbolReference {
    SymbolReference {
        id: None,
        symbol_name: "greet".to_string(),
        uri: uri.to_string(),
        range_start_line: line,
        range_start_char: 0,
        range_end_line: line,
        range_end_char: 5,
        reference_kind: kind.to_string(),
        created_at: None,
    }
}

#[test]
fn prepare_rename_offers_the_reference_under_the_cursor() {
    let doc = "greet = 1\nmain = greet\n";
    let refs = vec![loc("file:///m.gren", range(0, 0, 0, 5)), loc("file:///m.gren", range(1, 7, 1, 12))];
    let at = Position { line: 1, character: 9 };
    assert_eq!(handle_prepare_rename(Some(refs.clone()), "file:///m.gren", at, doc), Ok(Some(range(1, 7, 1, 12))));
    // A cursor on no reference gets the first one.
    let away = Position { line: 0, character: 8 };
    assert_eq!(handle_prepare_rename(Some(refs), "file:///m.gren", away, doc), Ok(Some(range(0, 0, 0, 5))));
    assert_eq!(handle_prepare_rename(None, "file:///m.gren", at, doc), Ok(None));
    assert_eq!(handle_prepare_rename(Some(vec![]), "file:///m.gren", at, doc), Ok(None));
}

#[test]
fn rename_edits_every_reference_from_the_end() {
    let docs = vec![
        ("file:///m.gren".to_string(), "greet = 1\nmain = greet\n".to_string()),
        ("file:///n.gren".to_string(), "x = greet\n".to_string()),
    ];
    let refs = vec![
        loc("file:///m.gren", range(0, 0, 0, 5)),
        loc("file:///n.gren", range(0, 4, 0, 9)),
        loc("file:///m.gren", range(1, 7, 1, 12)),
    ];
    let edit = handle_rename("salute", Some(refs), &docs, &vec![]).expect("ok").expect("edit");
    let groups = edit.changes.expect("changes");
    assert_eq!(groups.len(), 2);
    assert_eq!(groups[0].uri, "file:///m.gren");
    assert_eq!(groups[0].edits.len(), 2);
    assert_eq!(groups[0].edits[0].range, range(1, 7, 1, 12));
    assert_eq!(groups[0].edits[1].range, range(0, 0, 0, 5));
    assert!(groups.iter().all(|g| g.edits.iter().all(|e| e.new_text == "salute")));
    assert_eq!(groups[1].uri, "file:///n.gren");
}

#[test]
fn rename_refusals() {
    let docs = vec![("file:///m.gren".to_string(), "greet = 1\n".to_string())];
    let refs = vec![loc("file:///m.gren", range(0, 0, 0, 5))];
    assert!(matches!(handle_rename("Bad Name", Some(refs.clone()), &docs, &vec![]), Err(RenameError::InvalidName)));
    let existing = vec![symbol("salute", "file:///m.gren")];
    assert!(matches!(handle_rename("salute", Some(refs.clone()), &docs, &existing), Err(RenameError::NameConflict)));
    let elsewhere = vec![loc("file:///gone.gren", range(0, 0, 0, 5))];
    assert!(matches!(handle_rename("salute", Some(elsewhere), &docs, &vec![]), Err(RenameError::DocumentNotFound)));
    assert!(matches!(handle_rename("salute", None, &docs, &vec![]), Ok(None)));
}

#[test]
fn references_skip_declarations_unless_asked() {
    let available = vec![symbol("greet", "file:///m.gren")];
    let refs = vec![reference("file:///m.gren", 0, "declaration"), reference("file:///n.gren", 3, "usage")];
    let without = handle_references(&available, &refs, false).expect("found");
    assert_eq!(without.len(), 1);
    assert_eq!(without[0].uri, "file:///n.gren");
    assert_eq!(without[0].range, range(3, 0, 3, 5));
    let with = handle_references(&available, &refs, true).expect("found");
    assert_eq!(with.len(), 2);
    assert!(handle_references(&vec![], &refs, true).is_none());
    assert!(handle_references(&available, &vec![reference("file:///m.gren", 0, "declaration")], false).is_none());
}

#[test]
fn workspace_symbols_become_symbol_information() {
    assert!(get_workspace_symbols(None).is_none());
    let found = get_workspace_symbols(Some(vec![symbol("greet", "file:///m.gren")])).expect("some");
    assert_eq!(found.len(), 1);
    assert_eq!(found[0].name, "greet");
    assert_eq!(found[0].location.uri, "file:///m.gren");
    assert_eq!(get_workspace_symbols(Some(vec![])).map(|v| v.len()), Some(0));
}

#[test]
fn long_queries_are_refused_before_scoring() {
    assert!(query_fits_scoring("map"));
    assert!(query_fits_scoring(""));
    assert!(!query_fits_scoring(&"a".repeat(40000)));
}

#[test]
fn parser_points_must_fall_between_characters() {
    let text = "h\u{e9}llo\nworld";
    assert!(point_is_sliceable(text, 0, 3));
    assert!(!point_is_sliceable(text, 0, 2));
    assert!(point_is_sliceable(text, 1, 5));
    assert!(point_is_sliceable(text, 7, 0));
}

#[test]
fn clauses_are_checked_before_rewriting() {
    let content = "import Foo.Bar\n";
    let clause = ModuleClause {
        text: "import Foo.Bar".to_string(),
        start_row: 0,
        start_column: 0,
        end_row: 0,
        end_column: 14,
        module_name: "Foo.Bar".to_string(),
        name_offset: 7,
    };
    assert!(clause_fits(content, &clause));
    let shifted = ModuleClause { name_offset: 10, ..clause };
    assert!(!clause_fits(content, &shifted));
}

#[test]
fn test_prepare_rename_no_symbol() {
    // No symbol under the cursor: the reference search found nothing.
    let document_content = "-- Empty file\n";
    let result = handle_prepare_rename(None, "file:///test.gren", Position { line: 0, character: 0 }, document_content);
    assert_eq!(result, Ok(None));
}

#[test]
fn test_rename_no_symbol() {
    let document_content = "-- Empty file\n";
    let workspace_documents = vec![("file:///test.gren".to_string(), document_content.to_string())];
    let result = handle_rename("newName", None, &workspace_documents, &vec![]);
    assert!(matches!(result, Ok(None)));
    assert_eq!(workspace_documents.len(), 1);
}

#[test]
fn test_rename_invalid_name() {
    let document_content = "test = 42\n";
    let workspace_documents = vec![("file:///test.gren".to_string(), document_content.to_string())];
    let refs = vec![loc("file:///test.gren", range(0, 0, 0, 4))];
    let result = handle_rename("invalid-name", Some(refs), &workspace_documents, &vec![]);
    assert!(matches!(result, Err(RenameError::InvalidName)));
}

#[test]
fn test_validation_file_not_exists() {
    let old_uri = "file:///tmp/project/src/NonExistent.gren";
    let new_uri = "file:///tmp/project/src/New.gren";
    let result = validate_rename(old_uri, new_uri, false, false, None, Some("/tmp/project"), &vec![]).unwrap();
    assert!(!result.is_valid);
    assert!(result.error_message.unwrap().contains("does not exist"));
}

#[test]
fn test_rename_validation_invalid_naming_conventions() {
    let uri = "file:///test/src/Utils/Helper.gren";
    let docs = vec![(
        uri.to_string(),
        "module Utils.Helper exposing (formatName)\n\nformatName name =\n    name\n".to_string(),
    )];
    let refs = vec![loc(uri, range(2, 0, 2, 10))];
    let result = handle_rename("FormatName", Some(refs.clone()), &docs, &vec![]);
    assert!(result.is_err(), "Expected rename to fail for invalid naming convention");
    assert!(matches!(result, Err(RenameError::ValueNameExpected)));
    let message = gren_lsp::naming::NameError::InvalidValueName.message().to_lowercase();
    assert!(message.contains("lowercase") || message.contains("naming") || message.contains("convention"));
    assert!(handle_rename("formatLabel", Some(refs), &docs, &vec![]).is_ok());
    let type_docs = vec![(uri.to_string(), "type Shape = Circle\n".to_string())];
    let type_refs = vec![loc(uri, range(0, 5, 0, 10))];
    assert!(matches!(handle_rename("shape", Some(type_refs), &type_docs, &vec![]), Err(RenameError::TypeNameExpected)));
}

#[test]
fn ascii_names_follow_the_ascii_rules() {
    assert_eq!(validate_new_name("Zeta"), Ok(()));
    assert_eq!(validate_new_name("zeta-1"), Err(NameError::InvalidValueName));
    assert_eq!(validate_new_name("_x"), Err(NameError::NotALetter));
    assert_eq!(check_naming_convention("map", "Map"), Err(NameError::InvalidValueName));
    assert_eq!(check_naming_convention("Maybe", "maybe"), Err(NameError::InvalidTypeName));
    assert_eq!(check_naming_convention("Maybe", "Perhaps"), Ok(()));
}

#[test]
fn ranking_is_refused_for_overlong_queries() {
    assert!(rank_scorable_results(vec![], vec![], vec![], &"q".repeat(40000), 10).is_none());
    assert_eq!(rank_scorable_results(vec![], vec![], vec![], "map", 10).map(|v| v.len()), Some(0));
}
