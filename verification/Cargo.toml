[package]
name = "wotwot"
version = "0.1.0"
edition = "2021"
publish = false

[dependencies]
anyhow = "=1.0.104"
axum = "=0.7.9"
clap = { version = "=4.6.7", features = ["derive"] }
crossterm = "0.29"
dirs = "=5.0.1"
ratatui = "0.30"
serde = { version = "=1.0.229", features = ["derive"] }
serde_json = "=1.0.154"
tokio = { version = "=1.54.1", features = ["full"] }
tui-markdown = "=0.3.13"
ansi-to-tui = "8"
uuid = { version = "=1.29.0", features = ["v4"] }
