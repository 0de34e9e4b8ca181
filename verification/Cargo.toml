[package]
name = "route-ratelimit"
version = "0.1.0"
edition = "2021"
publish = false

[dependencies]
async-trait = "0.1"
dashmap = "6"
http = "1"
rand = "0.9"
reqwest = { version = "0.12", default-features = false }
reqwest-middleware = "0.4"
tokio = { version = "1", features = ["time"] }
tracing = "0.1"
