[package]
name = "kv"
version = "0.1.0"
edition = "2021"
publish = false

[dependencies]
bytes = "1"
dashmap = "5"
flate2 = "1"
futures = "0.3"
prost = "0.13"
tokio = { version = "1", features = ["io-util"] }
