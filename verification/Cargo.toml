[package]
name = "relfa"
version = "0.1.0"
edition = "2021"
publish = false

[dependencies]
anyhow = "*"
chrono = "*"
clap = { version = "*", features = ["derive"] }
crossterm = "*"
dirs = "*"
filetime = "*"
gethostname = "*"
notify-rust = "*"
serde = { version = "*", features = ["derive"] }
toml = "*"
walkdir = "*"
