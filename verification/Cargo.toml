[package]
name = "render_core"
version = "0.1.0"
edition = "2021"
publish = false

[dependencies]
base64 = "=0.22.1"
hound = "=3.5.1"
tokio = { version = "=1.53.2", features = ["net", "time", "rt-multi-thread", "macros", "io-util"] }
tokio-tungstenite = "=0.24.0"
futures = "=0.3.34"
serde = { version = "=1.0.229", features = ["derive"] }
serde_json = "=1.0.151"
url = "2"
