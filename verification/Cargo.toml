[package]
name = "prism_confirm"
version = "0.1.0"
edition = "2021"
publish = false

[dependencies]
statrs = "*"
log = "*"
serde = { version = "*", features = ["derive"] }
serde_json = "*"
websocket = { version = "*", default-features = false, features = ["sync"] }
