[package]
name = "tedit"
version = "0.1.0"
edition = "2021"
publish = false

[dependencies]
ropey = { version = "=1.6.1", default-features = false }
tree-sitter = "=0.27.0"
tree-sitter-rust = "=0.24.2"
crossterm = "=0.29.0"
clap = { version = "=4.6.7", features = ["derive"] }
