[package]
name = "mo_fmt"
version = "0.1.0"
edition = "2021"
publish = false

[dependencies]
tree-sitter = "0.25"
clap = { version = "4", features = ["derive"] }
ignore = "0.4"
serde = { version = "1", features = ["derive"] }
toml = "0.8"
anyhow = "1"
camino = "1"
walkdir = "2"
