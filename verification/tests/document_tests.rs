use gren_lsp::document::{Document, DocumentManager, TextDocumentContentChangeEvent};
use gren_lsp::protocol::{Position, Range};

#[test]
fn test_document_creation() {
    let doc = Document::new("file:///test.gren".to_string(), 1, "gren".to_string(), "hello world".to_string());
    assert_eq!(doc.version, 1);
    assert_eq!(doc.get_text(), "hello world");
    assert_eq!(doc.language_id, "gren");
}

#[test]
fn test_position_conversion() {
    let doc = Document::new("file:///test.gren".to_string(), 1, "gren".to_string(), "hello\nworld\n".to_string());
    let pos = Position { line: 0, character: 0 };
    assert_eq!(doc.position_to_byte_offset(pos).unwrap(), 0);
    let pos = Position { line: 1, character: 0 };
    assert_eq!(doc.position_to_byte_offset(pos).unwrap(), 6);
    let pos = doc.byte_offset_to_position(6).unwrap();
    assert_eq!(pos.line, 1);
    assert_eq!(pos.character, 0);
}

#[test]
fn test_incremental_changes() {
    let mut doc = Document::new("file:///test.gren".to_string(), 1, "gren".to_string(), "hello world".to_string());
    let range = Range { start: Position { line: 0, character: 6 }, end: Position { line: 0, character: 11 } };
    let changes = vec![TextDocumentContentChangeEvent { range: Some(range), range_length: None, text: "gren".to_string() }];
    assert!(doc.changes_fit(&changes));
    doc.apply_changes(2, changes).unwrap();
    assert_eq!(doc.get_text(), "hello gren");
    assert_eq!(doc.version, 2);
}

#[test]
fn read_after_open_gives_the_text() {
    let mut m = DocumentManager::new(4);
    m.did_open("file:///a.gren".to_string(), 3, "gren".to_string(), "module A".to_string()).unwrap();
    assert!(m.is_document_open("file:///a.gren"));
    assert_eq!(m.get_document_content("file:///a.gren"), Some("module A".to_string()));
    assert_eq!(m.get_document_version("file:///a.gren"), Some(3));
}

#[test]
fn closed_document_stays_readable_from_cache() {
    let mut m = DocumentManager::new(4);
    m.did_open("file:///a.gren".to_string(), 1, "gren".to_string(), "x = 1".to_string()).unwrap();
    m.did_close("file:///a.gren").unwrap();
    assert!(!m.is_document_open("file:///a.gren"));
    assert!(m.is_document_cached("file:///a.gren"));
    assert_eq!(m.get_document_content("file:///a.gren"), Some("x = 1".to_string()));
    let stats = m.get_stats();
    assert_eq!(stats.open_documents, 0);
    assert_eq!(stats.cached_documents, 1);
}

#[test]
fn full_change_replaces_text() {
    let mut m = DocumentManager::new(2);
    m.did_open("file:///b.gren".to_string(), 1, "gren".to_string(), "old".to_string()).unwrap();
    let changes = vec![TextDocumentContentChangeEvent { range: None, range_length: None, text: "new text".to_string() }];
    assert!(m.changes_fit("file:///b.gren", 2, &changes));
    m.did_change("file:///b.gren", 2, changes).unwrap();
    assert_eq!(m.get_open_document_content("file:///b.gren"), Some("new text".to_string()));
    assert_eq!(m.get_document_version("file:///b.gren"), Some(2));
}

#[test]
fn change_to_unknown_document_fails() {
    let mut m = DocumentManager::new(2);
    let changes = vec![TextDocumentContentChangeEvent { range: None, range_length: None, text: "t".to_string() }];
    assert!(m.did_change("file:///none.gren", 2, changes).is_err());
}

#[test]
fn range_text_of_document() {
    let doc = Document::new("file:///c.gren".to_string(), 1, "gren".to_string(), "ab\ncd".to_string());
    let r = Range { start: Position { line: 0, character: 1 }, end: Position { line: 1, character: 1 } };
    assert_eq!(doc.get_range_text(r).unwrap(), "b\nc");
}

#[test]
fn changes_count_positions_in_utf16_units() {
    let mut doc = Document::new("file:///t.gren".to_string(), 1, "gren".to_string(), "\u{e9} x".to_string());
    let changes = vec![TextDocumentContentChangeEvent {
        range: Some(Range { start: Position { line: 0, character: 2 }, end: Position { line: 0, character: 3 } }),
        range_length: None,
        text: "y".to_string(),
    }];
    assert!(doc.changes_fit(&changes));
    assert!(doc.apply_changes(2, changes).is_ok());
    assert_eq!(doc.get_text(), "\u{e9} y");
    let r = Range { start: Position { line: 0, character: 0 }, end: Position { line: 0, character: 1 } };
    assert_eq!(doc.get_range_text(r).unwrap(), "\u{e9}");
}

#[test]
fn opened_documents_keep_their_language() {
    let mut manager = DocumentManager::new(4);
    manager.did_open("file:///a.gren".to_string(), 1, "gren".to_string(), "x".to_string()).unwrap();
    assert_eq!(manager.get_document("file:///a.gren").map(|d| d.language_id.clone()), Some("gren".to_string()));
}

#[test]
fn positions_and_offsets_go_back_and_forth() {
    let doc = Document::new("file:///t.gren".to_string(), 1, "gren".to_string(), "\u{e9}\r\nxy\u{2028}z".to_string());
    for (line, character, offset) in [(0u32, 0u32, 0usize), (0, 1, 2), (1, 0, 4), (1, 1, 5), (1, 2, 6), (2, 0, 9)] {
        let pos = Position { line, character };
        assert_eq!(doc.position_to_byte_offset(pos).unwrap(), offset);
        let back = doc.byte_offset_to_position(offset).unwrap();
        assert_eq!((back.line, back.character), (line, character));
    }
}

#[test]
fn checked_changes_and_range_reads() {
    let mut manager = DocumentManager::new(4);
    manager.did_open("file:///a.gren".to_string(), 1, "gren".to_string(), "abc".to_string()).unwrap();
    let beyond = vec![TextDocumentContentChangeEvent {
        range: Some(Range { start: Position { line: 0, character: 1 }, end: Position { line: 0, character: 9 } }),
        range_length: None,
        text: "x".to_string(),
    }];
    assert!(manager.did_change_checked("file:///a.gren", 2, beyond).map(|x| x.is_ok()) == Some(true));
    assert_eq!(manager.get_document("file:///a.gren").unwrap().get_text(), "ax");
    let fine = vec![TextDocumentContentChangeEvent {
        range: Some(Range { start: Position { line: 0, character: 1 }, end: Position { line: 0, character: 2 } }),
        range_length: None,
        text: "X".to_string(),
    }];
    assert!(manager.did_change_checked("file:///a.gren", 3, fine).map(|x| x.is_ok()) == Some(true));
    let doc = manager.get_document("file:///a.gren").unwrap();
    assert_eq!(doc.get_text(), "aX");
    let r = Range { start: Position { line: 0, character: 0 }, end: Position { line: 0, character: 2 } };
    assert_eq!(doc.get_range_text_checked(r).map(|x| x.unwrap()), Some("aX".to_string()));
    let backwards = Range { start: Position { line: 0, character: 2 }, end: Position { line: 0, character: 1 } };
    assert!(doc.get_range_text_checked(backwards).is_none());
}
