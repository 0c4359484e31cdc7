[package]
name = "mini_downloader"
version = "0.1.0"
edition = "2021"
publish = false

[dependencies]
anyhow = "1"
bytes = "1"
indicatif = "0.17"
reqwest = "0.12"
reqwest-middleware = "0.4"
reqwest-retry = "0.7"
tokio = { version = "1", features = ["full"] }
