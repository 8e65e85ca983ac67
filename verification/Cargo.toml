[package]
name = "relay_hub"
version = "0.1.0"
edition = "2021"
publish = false

[dependencies]
axum = { version = "=0.7.9", features = ["ws", "multipart"] }
axum-server = { version = "0.7", features = ["tls-rustls-no-provider"] }
futures = "=0.3.34"
futures-util = "=0.3.34"
native-tls = "=0.2.18"
rcgen = "=0.11.3"
rustls = { version = "0.23", default-features = false, features = ["ring", "std", "tls12"] }
serde = { version = "=1.0.229", features = ["derive"] }
tokio = { version = "=1.54.1", features = ["full"] }
tokio-native-tls = "=0.3.1"
tokio-tungstenite = "=0.21.0"
tracing-subscriber = "=0.3.23"
url = "=2.5.8"
