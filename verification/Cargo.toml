[package]
name = "yabai_helper"
version = "0.1.0"
edition = "2021"
publish = false

[dependencies]
anyhow = "*"
argh = "*"
serde = { version = "*", features = ["derive"] }
serde_json = "*"
