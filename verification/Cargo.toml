[package]
name = "b64"
version = "0.1.0"
edition = "2021"
publish = false

[dev-dependencies]
base64 = "0.22"
