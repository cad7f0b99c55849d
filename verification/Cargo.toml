[package]
name = "blacklist"
version = "0.1.0"
edition = "2021"
publish = false

[dependencies]
cached = { version = "=0.59.0", default-features = false }
