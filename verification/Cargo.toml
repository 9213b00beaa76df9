[package]
name = "dux"
version = "0.1.0"
edition = "2021"
publish = false

[dependencies]
anyhow = "*"
clap = { version = "*", features = ["derive"] }
crossterm = "*"
fff-search = "*"
ratatui = "*"
rayon = "*"
serde = { version = "*", features = ["derive"] }
serde_json = "*"
trash = "*"
