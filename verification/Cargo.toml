[package]
name = "bibadac"
version = "0.1.0"
edition = "2021"
publish = false

[dependencies]
clap = { version = "4", features = ["derive"] }
colored = "2"
futures = "0.3"
once_cell = "1"
regex = "1"
reqwest = "0.12"
serde = { version = "1", features = ["derive"] }
serde_json = "1"
sha2 = "0.10"
tokio = { version = "1", features = ["rt", "net", "time"] }
tree-sitter = "*"
tree-sitter-bibtex = "*"
