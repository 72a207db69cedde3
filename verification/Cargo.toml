[package]
name = "tmbedit"
version = "0.1.0"
edition = "2021"
publish = false

[dependencies]
hunspell-rs = "=0.3.2"
regex-syntax = { version = "=0.8.11", features = ["unicode-perl"] }
serde = { version = "=1.0.229", features = ["derive"] }
tauri = { version = "=2.12.5", default-features = false }

[dev-dependencies]
regex = "=1.13.1"
