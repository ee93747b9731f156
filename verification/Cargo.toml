[package]
name = "spelunk"
version = "0.1.0"
edition = "2021"
publish = false

[dependencies]
tree-sitter = "0.25"
tree-sitter-language = "0.1"
tree-sitter-typescript = "0.23"
streaming-iterator = "0.1"
ignore = "0.4"
rayon = "1"
serde = { version = "1", features = ["derive"] }
serde_json = "1"
clap = { version = "4", features = ["derive"] }
anyhow = "1"
thiserror = "2"
