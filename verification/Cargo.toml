[package]
name = "yamlpath"
version = "0.1.0"
edition = "2021"
publish = false

[dependencies]
line-index = "=0.1.2"
serde = { version = "1", features = ["derive"] }
thiserror = "2"
tree-sitter = "0.26"
tree-sitter-iter = "=1.24.1"
tree-sitter-yaml = "=0.7.2"
