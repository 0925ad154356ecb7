[package]
name = "gren_lsp"
version = "0.1.0"
edition = "2021"
publish = false

[dependencies]
anyhow = "1"
lru = "0.12"
regex = "1"
ropey = "1.6"
serde = { version = "1", features = ["derive"] }
serde_json = "1"
sqlx = { version = "0.7", default-features = false, features = ["sqlite", "runtime-tokio", "macros"] }
tempfile = "3"
thiserror = "1"
tokio = { version = "1", features = ["full"] }
tower-lsp = "0.20"
tracing = "0.1"
tracing-subscriber = { version = "0.3", features = ["env-filter"] }
tree-sitter = "0.22"
url = "2"
uuid = { version = "1", features = ["v4"] }
