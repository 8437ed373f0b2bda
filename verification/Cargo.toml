[package]
name = "local_search"
version = "0.1.0"
edition = "2021"
publish = false

[dependencies]
lopdf = "=0.46.0"
platform-dirs = "=0.3.0"
raylib = "=6.0.0"
rust-fontconfig = "=5.0.1"
rust-stemmers = "=1.2.0"
serde = { version = "=1.0.229", features = ["derive"] }
toml = "=1.1.8"
xml-rs = "=1.0.0"
