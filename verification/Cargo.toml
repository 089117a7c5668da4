[package]
name = "hft_core"
version = "0.1.0"
edition = "2021"
publish = false

[dependencies]
serde_json = "=1.0.151"
tokio = { version = "=1.53.2", features = ["sync", "rt-multi-thread", "time", "macros", "net"] }
tokio-tungstenite = { version = "=0.30.0", default-features = false, features = ["connect", "handshake"] }
tungstenite = { version = "=0.30.0", default-features = false, features = ["handshake"] }
futures-util = "=0.3.34"
reqwest = { version = "=0.13.5", default-features = false }
chrono = "=0.4.45"
fastrand = "=2.5.0"
