[package]
name = "proxylab"
version = "0.1.0"
edition = "2021"
publish = false

[dependencies]
regex = "1"
tokio = { version = "1", features = ["net", "io-util", "rt-multi-thread", "fs"] }
futures = "0.3"
lazy_static = "1"
