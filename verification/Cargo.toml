[package]
name = "prettier"
version = "1.0.0"
edition = "2021"
publish = false

[dependencies]
regex = "*"
serde = { version = "*", features = ["derive"] }
serde_json = "*"
colored = "*"
lazy_static = "*"
