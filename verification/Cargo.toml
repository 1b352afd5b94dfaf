[package]
name = "wiring"
version = "0.1.0"
edition = "2021"
publish = false

[dependencies]
url = "2"
rand = "0.8"
tokio = { version = "1", features = ["full"] }
futures = "0.3"
tokio-stream = { version = "0.1", features = ["sync"] }
pin-project = "1"
