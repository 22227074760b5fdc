[package]
name = "symbo"
version = "0.1.0"
edition = "2021"
publish = false

[dependencies]
clap = { version = "*", features = ["derive"] }
colored = "*"
cpp_demangle = "*"
crossterm = "*"
pot = "*"
serde = { version = "*", features = ["derive"] }
serde_json = "*"
tempfile = "*"
