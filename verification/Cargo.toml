[package]
name = "trunkls"
version = "0.1.0"
edition = "2021"
publish = false

[dependencies]
anyhow = "1"
clap = { version = "4", features = ["derive"] }
constcat = "*"
fxhash = "0.2"
lsp-server = "0.7"
lsp-types = "0.97"
memchr = "2"
serde_json = "1"
streaming-iterator = "0.1"
tracing = "0.1"
tracing-subscriber = { version = "0.3", features = ["env-filter"] }
tree-sitter = "0.24"
tree-sitter-html = "0.23"
