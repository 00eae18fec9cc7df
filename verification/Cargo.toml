[package]
name = "koe"
version = "0.1.0"
edition = "2021"
publish = false

[dependencies]
flate2 = "*"
serde_json = "*"
log = "*"
env_logger = "*"
futures-util = { version = "*", features = ["sink"] }
tokio = { version = "*", features = ["rt-multi-thread", "macros", "time", "net"] }
tokio-tungstenite = "*"
uuid = { version = "*", features = ["v4"] }
sherpa-onnx = "*"
