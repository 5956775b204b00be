[package]
name = "viman"
version = "0.1.0"
edition = "2021"
publish = false

[dependencies]
argon2 = "=0.6.0"
hmac = "=0.13.0"
sha2 = "=0.11.0"
