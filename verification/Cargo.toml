[package]
name = "cursortab"
version = "0.1.0"
edition = "2021"
publish = false

[dependencies]
bytes = "1"
base64 = "0.22"
tokio = { version = "1", features = ["full"] }
tokio-util = "0.7"
futures = "0.3"
async-trait = "0.1"
log = "0.4"
simplelog = "0.12"
reqwest = { version = "0.12", default-features = false, features = ["rustls-tls", "stream"] }
rusqlite = { version = "*", features = ["bundled"] }
nvim-rs = { version = "*", features = ["use_tokio"] }
