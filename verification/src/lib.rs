//! A language server core for the Gren programming language.
use vstd::prelude::*;

pub mod chars;
pub mod code_actions;
pub mod compiler;
pub mod completion;
pub mod completion_items;
pub mod diagnostics;
pub mod document;
pub mod file_operations;
pub mod goto_definition;
pub mod hover;
pub mod import_completion;
pub mod import_rewriter;
pub mod imports;
pub mod line_scan;
pub mod local_scope;
pub mod lsp_service;
pub mod module_rename;
pub mod naming;
pub mod ordering;
pub mod outline;
pub mod paths;
pub mod performance;
pub mod positions;
pub mod protocol;
pub mod references;
pub mod rename;
pub mod rename_check;
pub mod scope;
pub mod search;
pub mod symbols;
pub mod text;
pub mod text_edits;
pub mod tree_sitter_queries;
pub mod workspace_protocol;

verus! {
}
