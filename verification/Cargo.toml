[package]
name = "tree_traversal"
version = "0.1.0"
edition = "2021"
publish = false

[dependencies]
tree-sitter = "*"

[dev-dependencies]
tree-sitter-javascript = "*"
