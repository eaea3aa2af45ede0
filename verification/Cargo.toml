[package]
name = "sql_parse"
version = "0.1.0"
edition = "2021"
publish = false

[dependencies]
tree-sitter = "*"
tree-sitter-python = "*"
regex = "*"
console = "*"
textwrap = "*"
anyhow = "*"
atty = "*"
clap = { version = "*", features = ["derive"] }
