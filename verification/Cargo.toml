[package]
name = "dlog"
version = "0.1.0"
edition = "2021"
publish = false

[dependencies]
anyhow = "1"
base64 = "0.22"
chrono = "0.4"
crossterm = "0.28"
directories = "6"
git2 = { version = "0.20", default-features = false }
keyring = "3"
nucleo-matcher = "0.3"
ratatui = "0.29"
regex = "1"
rusqlite = { version = "0.32", features = ["bundled"] }
serde = { version = "1", features = ["derive"] }
serde_json = "1"
toml = "0.8"
ureq = { version = "3", features = ["json"] }
walkdir = "2"
