[package]
name = "mkcdoc"
version = "0.1.0"
edition = "2021"
publish = false

[dependencies]
anyhow = "1"
clap = { version = "4", features = ["derive"] }
notify = "*"
pulldown-cmark = "*"
serde = { version = "1", features = ["derive"] }
tera = "1"
tiny_http = "0.12"
toml = "*"
tree-sitter = "*"
tree-sitter-c = "*"
