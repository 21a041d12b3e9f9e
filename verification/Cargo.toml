[package]
name = "today"
version = "0.1.0"
edition = "2021"
publish = false

[dependencies]
anyhow = "*"
chrono = "*"
clap = "*"
crossterm = "*"
dirs = "*"
inquire = "*"
serde = { version = "*", features = ["derive"] }
serde_json = "*"
termion = "*"
uuid = { version = "*", features = ["v4"] }
