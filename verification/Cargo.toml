[package]
name = "scram"
version = "0.1.0"
edition = "2021"

[dependencies]
base64 = "=0.22.1"
hmac = "=0.12.1"
rand = "=0.8.8"
sha2 = "=0.10.9"

[dev-dependencies]
pbkdf2 = { version = "=0.12.2", default-features = false, features = ["hmac"] }
