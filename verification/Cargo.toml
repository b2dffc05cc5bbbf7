[package]
name = "fzfpj"
version = "0.1.0"
edition = "2021"
publish = false

[dependencies]
fuzzy-matcher = "*"
crossterm = "*"
serde = { version = "*", features = ["derive"] }
serde_json = "*"
