[package]
name = "poem"
version = "0.1.0"
edition = "2021"
publish = false

[dependencies]
futures-util = "0.3"
http = "0.2"
hyper = { version = "0.14", features = ["server", "http1", "http2", "runtime"] }
tokio = { version = "1", features = ["sync", "time", "macros", "rt", "net"] }
