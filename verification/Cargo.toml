[package]
name = "sockudo"
version = "0.1.0"
edition = "2021"
publish = false

[dependencies]
rand = "0.8"
hmac = "0.12"
sha2 = "0.10"
chrono = "0.4"
serde = { version = "1", features = ["derive"] }
serde_json = "1"
redis = "*"
