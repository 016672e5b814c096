[package]
name = "bpm"
version = "0.1.0"
edition = "2021"
publish = false

[dependencies]
anyhow = "*"
tokio = { version = "*", features = ["sync", "rt"] }
tokio-uring = "*"
