[package]
name = "ghcitty"
version = "0.3.0"
edition = "2021"
publish = false

[dependencies]
nu-ansi-term = "*"
serde = { version = "1", features = ["derive"] }
serde_json = "1"
clap = { version = "4", features = ["derive"] }
reedline = "*"
crossterm = "*"
libc = "0.2"
