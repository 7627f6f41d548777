[package]
name = "mini_chain"
version = "0.1.0"
edition = "2021"
publish = false

[dependencies]
sha2 = "0.10"
rand = "0.8"
tokio = { version = "1", features = ["full"] }
async-trait = "0.1"
async-channel = "2"
futures = "0.3"
colored = "2"
tokio-stream = "0.1"
tracing = "0.1"
tracing-subscriber = "0.3"
