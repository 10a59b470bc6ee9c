[package]
name = "bybit_api"
version = "0.1.0"
edition = "2021"
publish = false

[dependencies]
chrono = "=0.4.45"
regex = "=1.13.1"
serde = { version = "=1.0.229", features = ["derive"] }
serde_json = "=1.0.154"
uuid = { version = "=1.29.0", features = ["v4"] }
log = "=0.4.35"
tokio = { version = "=1.54.1", features = ["full"] }
tokio-tungstenite = "=0.30.0"
futures-util = { version = "=0.3.34", features = ["sink"] }
parking_lot = "=0.12.5"
disruptor = "=4.4.0"
reqwest = { version = "=0.12.28", default-features = false, features = ["json"] }
hmac = "0.12"
sha2 = "0.10"
hex = "0.4"
