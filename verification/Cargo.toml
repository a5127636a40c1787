[package]
name = "calljet"
version = "0.1.0"
edition = "2021"
publish = false

[dependencies]
clang-sys = { version = "1", features = ["runtime"] }
clap = { version = "4", features = ["derive"] }
serde = { version = "1", features = ["derive"] }
serde_json = "1"
tree-sitter = "*"
tree-sitter-c = "*"
tree-sitter-cpp = "*"
