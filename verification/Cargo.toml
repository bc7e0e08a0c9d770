[package]
name = "rkvs"
version = "0.1.0"
edition = "2021"
publish = false

[dependencies]
crc = "3"
uuid = "1"
tokio = { version = "1", features = ["full"] }
tokio-util = "0.7"
