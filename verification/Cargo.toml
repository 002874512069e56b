[package]
name = "object_tree_transform"
version = "0.1.0"
edition = "2021"
publish = false

[dependencies]
lsp-types = "*"
