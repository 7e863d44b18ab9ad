[package]
name = "shortcut_release_helper"
version = "0.1.0"
edition = "2021"
publish = false

[dependencies]
ansi_term = "*"
anyhow = "1"
clap = { version = "4", features = ["derive"] }
dotenvy = "*"
git2 = "*"
serde = { version = "1", features = ["derive"] }
serde_json = "1"
toml = "*"
ureq = "2"
