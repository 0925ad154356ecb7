# gren_lsp

A language server for the [Gren](https://gren-lang.org/) programming language,
whose core is verified with Verus.

- `src/` is the library: document synchronisation, diagnostics from the
  compiler's report, symbol extraction from parser matches, completion,
  hover, go-to-definition, references, renames (of symbols and of module
  files), code actions, workspace symbol search and the server's caches.
  Every function there carries a `requires`/`ensures` contract that Verus
  checks; calls into `ropey`, `lru`, `url`, `uuid`, `serde_json`,
  `tree-sitter` and std go through small trusted wrappers whose contracts
  say what those crates document.
- `app/` is the executable around it: the `tower-lsp` server loop, the
  SQLite symbol index (`sqlx`), the compiler process, file-system checks,
  and the tree-sitter walks that turn Gren syntax trees into the plain
  values the library works on.  Parsing needs the `tree_sitter_gren`
  grammar crate.
- `tests/` exercises the library on concrete inputs.
