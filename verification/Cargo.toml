[package]
name = "resp_core"
version = "0.1.0"
edition = "2021"
publish = false

[dependencies]
bytes = "*"
anyhow = "*"
thiserror = "*"
tokio = { version = "*", features = ["full"] }
tokio-stream = "*"
async-stream = "*"
