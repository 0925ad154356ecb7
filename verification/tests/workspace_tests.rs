use gren_lsp::file_operations::FileOperationManager;
use gren_lsp::compiler::module_name_from_path;
use gren_lsp::protocol::{Position, Range, TextEdit};
use gren_lsp::rename::{FileEdits, WorkspaceEdit};
use gren_lsp::workspace_protocol::{
    get_file_operation_filters, is_gren_file, merge_rename_edits, merge_successful_renames, select_gren_renames, FileRename,
    WorkspaceProtocolError,
};

fn edit(line: u32, text: &str) -> TextEdit {
    TextEdit {
        range: Range { start: Position { line, character: 0 }, end: Position { line, character: 1 } },
        new_text: text.to_string(),
    }
}

#[test]
fn test_is_gren_file() {
    assert!(is_gren_file("file:///path/to/Module.gren"));
    assert!(!is_gren_file("file:///path/to/file.js"));
    assert!(!is_gren_file("file:///path/to/file"));
    assert!(is_gren_file("file:///path/to/Upper.GREN"));
    assert!(!is_gren_file("https://example.com/A.gren"));
}

#[test]
fn test_file_operation_filters() {
    let filters = get_file_operation_filters();
    assert_eq!(filters.len(), 1);
    assert_eq!(filters[0].pattern.glob, "**/*.gren");
    assert_eq!(filters[0].scheme, Some("file".to_string()));
}

#[test]
fn test_module_name_extraction() {
    assert_eq!(module_name_from_path("/project/src/Main.gren", "/project").unwrap(), "Main");
    assert_eq!(module_name_from_path("/project/src/Utils/Parser.gren", "/project").unwrap(), "Utils.Parser");
    assert_eq!(module_name_from_path("/project/Example.gren", "/project").unwrap(), "Example");
}

#[test]
fn renames_keep_gren_files_only() {
    let files = vec![
        FileRename { old_uri: "file:///a/Old.gren".to_string(), new_uri: "file:///a/New.gren".to_string() },
        FileRename { old_uri: "file:///a/readme.md".to_string(), new_uri: "file:///a/README.md".to_string() },
    ];
    let kept = select_gren_renames(files).unwrap();
    assert_eq!(kept.len(), 1);
    assert_eq!(kept[0].old_uri, "file:///a/Old.gren");
    let bad = vec![FileRename { old_uri: "not a url".to_string(), new_uri: "file:///b.gren".to_string() }];
    assert_eq!(select_gren_renames(bad).unwrap_err(), WorkspaceProtocolError::InvalidOldUri);
}

#[test]
fn merged_edits_group_by_document() {
    let first = WorkspaceEdit { changes: Some(vec![FileEdits { uri: "file:///x.gren".to_string(), edits: vec![edit(0, "a")] }]) };
    let second = WorkspaceEdit {
        changes: Some(vec![
            FileEdits { uri: "file:///y.gren".to_string(), edits: vec![edit(1, "b")] },
            FileEdits { uri: "file:///x.gren".to_string(), edits: vec![edit(2, "c")] },
        ]),
    };
    let merged = merge_rename_edits(vec![first, second]).unwrap();
    let groups = merged.changes.unwrap();
    assert_eq!(groups.len(), 2);
    assert_eq!(groups[0].uri, "file:///x.gren");
    assert_eq!(groups[0].edits.len(), 2);
    assert_eq!(groups[0].edits[1].new_text, "c");
    assert_eq!(groups[1].uri, "file:///y.gren");
    assert!(merge_rename_edits(vec![WorkspaceEdit { changes: None }]).is_none());
}

#[test]
fn new_transactions_get_hyphenated_v4_identifiers() {
    let manager = FileOperationManager::new();
    let t = manager.begin_transaction();
    assert!(t.staged_operations.is_empty());
    let id: Vec<char> = t.transaction_id.chars().collect();
    assert_eq!(id.len(), 36);
    for (i, c) in id.iter().enumerate() {
        if i == 8 || i == 13 || i == 18 || i == 23 {
            assert_eq!(*c, '-');
        } else {
            assert!(c.is_ascii_hexdigit() && !c.is_ascii_uppercase());
        }
    }
    assert_eq!(id[14], '4');
    assert!(matches!(id[19], '8' | '9' | 'a' | 'b'));
    assert_ne!(manager.begin_transaction().transaction_id, t.transaction_id);
}

#[test]
fn failed_preparations_add_nothing() {
    let ok = WorkspaceEdit { changes: Some(vec![FileEdits { uri: "file:///x.gren".to_string(), edits: vec![edit(0, "a")] }]) };
    let merged = merge_successful_renames(vec![None, Some(ok), None]).unwrap();
    let groups = merged.changes.unwrap();
    assert_eq!(groups.len(), 1);
    assert_eq!(groups[0].edits[0].new_text, "a");
    assert!(merge_successful_renames(vec![None, None]).is_none());
}
