[package]
name = "tree_txt"
version = "0.1.0"
edition = "2021"
publish = false

[dependencies]
chrono = "*"
clap = "*"
dirs = "*"
ratatui = "*"
serde = { version = "*", features = ["derive"] }
toml = "*"
