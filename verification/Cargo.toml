[package]
name = "hummock"
version = "0.1.0"
edition = "2021"
publish = false

[dependencies]
lru = "*"
tokio = { version = "1", features = ["sync", "time", "rt"] }
tokio-retry = "0.3"
