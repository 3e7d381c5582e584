[package]
name = "repoyank"
version = "0.1.0"
edition = "2021"
publish = false

[dependencies]
anyhow = "1"
arboard = { version = "3", default-features = false }
clap = { version = "4", features = ["derive"] }
crossterm = "*"
glob = "0.3"
ignore = "0.4"
ratatui = "*"
