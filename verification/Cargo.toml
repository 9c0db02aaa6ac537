[package]
name = "call_relay"
version = "0.1.0"
edition = "2021"
publish = false

[dependencies]
async-channel = "1.9"
crossbeam-channel = "0.5"
axum = { version = "0.6", features = ["ws"] }
axum-server = { version = "0.5", features = ["tls-rustls"] }
tokio = { version = "1", features = ["rt-multi-thread", "macros"] }
tokio-tungstenite = "0.18"
tungstenite = "0.18"
http = "0.2"
futures = "0.3"
serde = { version = "1", features = ["derive"] }
serde_json = "1"
structopt = "0.3"
base64 = "0.13"
