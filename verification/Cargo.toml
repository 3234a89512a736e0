[package]
name = "pkg"
version = "0.1.0"
edition = "2021"
publish = false

[dependencies]
argh = "*"
tree-sitter = "*"
tree-sitter-json = "*"
tree-sitter-toml-ng = "*"
