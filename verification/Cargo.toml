[package]
name = "ssh_hosts"
version = "0.1.0"
edition = "2021"
publish = false

[dependencies]
sublime_fuzzy = "0.7"
unicode-width = "0.2"
ratatui = "0.29"
crossterm = "0.28"
color-eyre = "0.6"
dirs = "*"
serde = { version = "1", features = ["derive"] }

[dev-dependencies]
serde_json = "1"
