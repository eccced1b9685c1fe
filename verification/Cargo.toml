[package]
name = "winfacl"
version = "0.9.0"
edition = "2021"
publish = false

[dependencies]
uzers = "0.12"
rustix = { version = "1", features = ["fs"] }
walkdir = "2"
clap = { version = "4", features = ["derive"] }
crossterm = "0.28"
ratatui = "0.29"
