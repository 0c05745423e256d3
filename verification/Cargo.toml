[package]
name = "rrecall"
version = "0.4.0"
edition = "2021"
publish = false

[dependencies]
clap = { version = "4", features = ["derive", "env"] }
dirs = "*"
fastembed = "*"
libc = "0.2"
regex = "1"
serde = { version = "1", features = ["derive"] }
serde_json = "1"
tantivy-query-grammar = "*"
walkdir = "2"
xdg = "*"

[dev-dependencies]
serde_json = "1"
tempfile = "3"
