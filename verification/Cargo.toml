[package]
name = "reap"
version = "0.1.0"
edition = "2021"
publish = false

[dependencies]
tree-sitter = "*"
tree-sitter-java = "*"
globset = "*"
walkdir = "*"
rayon = "*"
owo-colors = "*"
clap = { version = "*", features = ["derive"] }
