[package]
name = "session_workspace"
version = "0.1.0"
edition = "2021"
publish = false

[dependencies]
anyhow = "1"
base64 = "0.22"
chrono = "0.4"
crossterm = "0.28"
pulldown-cmark = "0.13"
ratatui = "0.29"
serde_json = "1"
uuid = { version = "1", features = ["v4"] }
