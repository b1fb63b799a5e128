[package]
name = "stellar_horizon_client"
version = "0.1.0"
edition = "2021"
publish = false

[dependencies]
url = "2"
hyper = { version = "0.14", features = ["client", "http1", "http2", "tcp"] }
hyper-tls = "0.5"
http = "0.2"
futures = "0.3"
serde = { version = "1", features = ["derive"] }
serde_json = "1"
