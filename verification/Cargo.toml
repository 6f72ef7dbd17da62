[package]
name = "smarty_checker"
version = "0.1.0"
edition = "2021"
publish = false

[dependencies]
tree-sitter = "*"
tree-sitter-html = "*"
serde = { version = "1", features = ["derive"] }
toml = "*"
