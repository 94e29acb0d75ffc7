[package]
name = "rek0n_parser"
version = "0.1.0"
edition = "2021"
publish = false

[dependencies]
tree-sitter = "*"
tree-sitter-rust = "*"
thiserror = "*"
