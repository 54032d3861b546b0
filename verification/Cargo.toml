[package]
name = "zaichik"
version = "0.1.0"
edition = "2021"
publish = false

[dependencies]
tokio = { version = "*", features = ["full"] }
tokio-stream = { version = "*", features = ["sync"] }
log = "*"
env_logger = "*"
