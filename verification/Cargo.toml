[package]
name = "context_gather"
version = "0.1.0"
edition = "2021"
publish = false

[dependencies]
anyhow = "*"
chrono = "*"
clap = { version = "*", features = ["derive"] }
cli-clipboard = "*"
dunce = "*"
fuzzy-matcher = "*"
glob = "*"
globset = "*"
ignore = "*"
path-slash = "*"
tiktoken-rs = "*"
