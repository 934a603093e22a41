[package]
name = "cafetera"
version = "0.1.0"
edition = "2021"
publish = false

[dependencies]
hteapot = "*"
serde = { version = "1", features = ["derive"] }
serde_json = { version = "1", features = ["preserve_order"] }
toml = "*"
