[package]
name = "rustdu"
version = "0.5.0"
edition = "2021"
publish = false

[dependencies]
anyhow = "1"
clap = "4"
crossterm = "0.28"
ratatui = "0.29"
serde = { version = "1", features = ["derive"] }
serde_json = "1"
