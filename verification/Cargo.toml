[package]
name = "voicesurf"
version = "0.1.0"
edition = "2021"
publish = false

[dependencies]
serde = { version = "*", features = ["derive"] }
serde_json = "*"
notify = "*"
xdg = "*"
