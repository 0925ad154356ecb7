use gren_lsp::module_rename::{apply_text_edits as replace_lines, extract_module_name};
use gren_lsp::naming::validate_new_name;
use gren_lsp::protocol::{Location, Position, Range, TextEdit};
use gren_lsp::rename::{extract_text_from_range, generate_workspace_edit, range_is_sliceable, FileEdits, WorkspaceEdit};
use gren_lsp::rename_check::{
    apply_workspace_edit, compilation_result, compile_verdict, plan_scratch_modules, workspace_edit_applies, ModuleCheck,
    WorkspaceDocument,
};
use gren_lsp::compiler::CompileResult;
use gren_lsp::text_edits::{apply_text_edits, text_edits_apply, text_edits_replace, EditError};

fn range(sl: u32, sc: u32, el: u32, ec: u32) -> Range {
    Range { start: Position { line: sl, character: sc }, end: Position { line: el, character: ec } }
}

#[test]
fn test_validate_naming_patterns() {
    for name in ["validFunction", "anotherFunction123", "function_with_underscores", "f", "map", "fold"] {
        assert!(validate_new_name(name).is_ok(), "{}", name);
    }
    for name in ["ValidType", "AnotherType123", "TypeName", "T", "User", "HttpRequest"] {
        assert!(validate_new_name(name).is_ok(), "{}", name);
    }
    for name in ["", "123invalid", "invalid-name", "if", "type", "module", "_private", "with space"] {
        assert!(validate_new_name(name).is_err(), "{}", name);
    }
}

#[test]
fn test_range_text_extraction_logic() {
    let content = "line1\nline2\nline3";
    let r = range(1, 2, 1, 5);
    assert!(range_is_sliceable(content, r));
    assert_eq!(extract_text_from_range(content, r).unwrap(), "ne2");
}

#[test]
fn rename_basic_tests_test_workspace_edit_structure() {
    let text_edit = TextEdit { range: range(0, 0, 0, 5), new_text: "newName".to_string() };
    let workspace_edit = WorkspaceEdit {
        changes: Some(vec![FileEdits { uri: "file:///test.gren".to_string(), edits: vec![text_edit] }]),
    };
    assert!(workspace_edit.changes.is_some());
    let changes = workspace_edit.changes.unwrap();
    assert_eq!(changes.len(), 1);
}

#[test]
fn test_extract_text_from_range() {
    let content = "line1\nline2\nline3";
    let result = extract_text_from_range(content, range(1, 2, 1, 5));
    assert!(result.is_ok());
    assert_eq!(result.unwrap(), "ne2");
}

#[test]
fn test_extract_text_from_range_single_char() {
    let content = "hello world";
    let result = extract_text_from_range(content, range(0, 6, 0, 11));
    assert!(result.is_ok());
    assert_eq!(result.unwrap(), "world");
}

#[test]
fn test_validate_new_name_valid_function() {
    assert!(validate_new_name("validFunction").is_ok());
    assert!(validate_new_name("anotherFunction123").is_ok());
    assert!(validate_new_name("function_with_underscores").is_ok());
}

#[test]
fn test_validate_new_name_valid_type() {
    assert!(validate_new_name("ValidType").is_ok());
    assert!(validate_new_name("AnotherType123").is_ok());
    assert!(validate_new_name("TypeName").is_ok());
}

#[test]
fn test_validate_new_name_invalid() {
    let empty = validate_new_name("");
    assert!(empty.is_err());
    assert!(empty.unwrap_err().message().contains("empty"));
    assert!(validate_new_name("123invalid").is_err());
    assert!(validate_new_name("invalid-name").is_err());
    let kw = validate_new_name("if");
    assert!(kw.is_err());
    assert!(kw.unwrap_err().message().contains("reserved"));
    assert!(validate_new_name("type").is_err());
    assert!(validate_new_name("module").is_err());
}

#[test]
fn edits_apply_from_the_last() {
    let content = "alpha beta\ngamma";
    let edits = vec![
        TextEdit { range: range(0, 0, 0, 5), new_text: "one".to_string() },
        TextEdit { range: range(0, 6, 0, 10), new_text: "two".to_string() },
    ];
    assert!(text_edits_apply(content, &edits));
    assert_eq!(apply_text_edits(content, &edits).unwrap(), "one two\ngamma");
}

#[test]
fn multi_line_edit_joins_lines() {
    let content = "aaa\nbbb\nccc";
    let edits = vec![TextEdit { range: range(0, 1, 2, 1), new_text: "X".to_string() }];
    assert_eq!(apply_text_edits(content, &edits).unwrap(), "aXcc");
}

#[test]
fn text_outside_the_edits_is_kept() {
    assert_eq!(apply_text_edits("a\n", &Vec::new()).unwrap(), "a\n");
    assert_eq!(apply_text_edits("x\r\ny\r\n", &Vec::new()).unwrap(), "x\r\ny\r\n");
    let edits = vec![TextEdit { range: range(1, 0, 1, 1), new_text: "zz".to_string() }];
    assert_eq!(apply_text_edits("x\r\ny\r\n", &edits).unwrap(), "x\r\nzz\r\n");
    let across = vec![TextEdit { range: range(0, 1, 1, 0), new_text: "-".to_string() }];
    assert_eq!(apply_text_edits("ab\r\ncd\n", &across).unwrap(), "a-cd\n");
    let backwards = vec![TextEdit { range: range(0, 2, 0, 1), new_text: "x".to_string() }];
    assert_eq!(apply_text_edits("abc", &backwards), Err(EditError::RangeEndsBeforeStart));
}

#[test]
fn edit_errors() {
    let content = "abc";
    let beyond = vec![TextEdit { range: range(3, 0, 3, 0), new_text: "x".to_string() }];
    assert_eq!(apply_text_edits(content, &beyond), Err(EditError::StartLineBeyondDocument));
    let wide = vec![TextEdit { range: range(0, 1, 0, 9), new_text: "x".to_string() }];
    assert_eq!(apply_text_edits(content, &wide), Err(EditError::InvalidCharacterRange));
    let end_beyond = vec![TextEdit { range: range(0, 1, 5, 0), new_text: "x".to_string() }];
    assert_eq!(apply_text_edits(content, &end_beyond), Err(EditError::EndLineBeyondDocument));
    let inside_char = vec![TextEdit { range: range(0, 1, 0, 1), new_text: "x".to_string() }];
    assert!(!text_edits_apply("é", &inside_char));
}

#[test]
fn workspace_edit_renames_in_documents() {
    let refs = vec![
        Location { uri: "file:///a.gren".to_string(), range: range(0, 0, 0, 3) },
        Location { uri: "file:///a.gren".to_string(), range: range(1, 4, 1, 7) },
    ];
    let docs = vec![("file:///a.gren".to_string(), "foo = 1\nx = foo".to_string())];
    let edit = generate_workspace_edit(&refs, "foo", "bar", &docs).unwrap();
    let documents = vec![WorkspaceDocument { uri: "file:///a.gren".to_string(), content: "foo = 1\nx = foo".to_string() }];
    assert!(workspace_edit_applies(&edit, &documents));
    let out = apply_workspace_edit(&edit, &documents).unwrap();
    assert_eq!(out[0].content, "bar = 1\nx = bar");
}

#[test]
fn scratch_modules_follow_src_path() {
    let docs = vec![
        WorkspaceDocument { uri: "file:///proj/src/Http/Client.gren".to_string(), content: "module Http.Client".to_string() },
        WorkspaceDocument { uri: "file:///proj/notes.txt".to_string(), content: "text".to_string() },
        WorkspaceDocument { uri: "file:///proj/Main.gren".to_string(), content: "module Main".to_string() },
    ];
    let plan = plan_scratch_modules(&docs);
    assert_eq!(plan.len(), 2);
    assert_eq!(plan[0].module_name, "Http.Client");
    assert_eq!(plan[0].directories, vec!["Http".to_string()]);
    assert_eq!(plan[0].file_name, "Client.gren");
    assert_eq!(plan[1].module_name, "Main");
    assert!(plan[1].directories.is_empty());
}

#[test]
fn compile_verdicts() {
    let ok = CompileResult { success: true, output: String::new(), stderr: String::new(), exit_code: Some(0) };
    assert!(matches!(compile_verdict("Main", &Ok(ok)), ModuleCheck::Passed));
    let crash = CompileResult { success: false, output: String::new(), stderr: "Prelude.last: empty list".to_string(), exit_code: Some(1) };
    assert!(matches!(compile_verdict("Main", &Ok(crash)), ModuleCheck::Skipped));
    let bad = CompileResult { success: false, output: String::new(), stderr: "TYPE MISMATCH".to_string(), exit_code: Some(1) };
    match compile_verdict("Main", &Ok(bad)) {
        ModuleCheck::Failed(m) => assert_eq!(m, "Compilation validation failed for module 'Main': TYPE MISMATCH"),
        _ => panic!("expected failure"),
    }
    match compile_verdict("Main", &Err("no compiler".to_string())) {
        ModuleCheck::Failed(m) => assert_eq!(m, "Compilation validation error for module 'Main': no compiler"),
        _ => panic!("expected failure"),
    }
}

#[test]
fn compilation_result_reports_first_failure() {
    assert!(compilation_result(&vec![]).is_ok());
    assert!(compilation_result(&vec![ModuleCheck::Passed, ModuleCheck::Skipped, ModuleCheck::Passed]).is_ok());
    let verdicts = vec![
        ModuleCheck::Passed,
        ModuleCheck::Failed("first".to_string()),
        ModuleCheck::Skipped,
        ModuleCheck::Failed("second".to_string()),
    ];
    assert_eq!(compilation_result(&verdicts), Err("first".to_string()));
}

#[test]
fn test_extract_module_name() {
    assert_eq!(extract_module_name("file:///work/src/Utils.gren", Some("/work")).unwrap(), "Utils");
    assert_eq!(extract_module_name("file:///work/src/Http/Client.gren", Some("/work")).unwrap(), "Http.Client");
    assert!(extract_module_name("file:///elsewhere/A.gren", Some("/work")).is_err());
    assert!(extract_module_name("file:///work/src/A.gren", None).is_err());
}

#[test]
fn module_edits_replace_their_ranges() {
    let content = "import Utils\nimport Other\nmain = 1\n";
    let edits = vec![
        TextEdit { range: range(0, 7, 0, 12), new_text: "Helpers".to_string() },
        TextEdit { range: range(1, 0, 1, 12), new_text: "import Else".to_string() },
        TextEdit { range: range(9, 0, 9, 1), new_text: "ignored".to_string() },
    ];
    assert!(text_edits_replace(content, &edits));
    assert_eq!(replace_lines(content, &edits), "import Helpers\nimport Else\nmain = 1\n");
    assert_eq!(replace_lines(content, &Vec::new()), content);
    let one = vec![TextEdit { range: range(0, 0, 0, 1), new_text: "X".to_string() }];
    assert_eq!(replace_lines("ab", &one), "Xb");
}
