[package]
name = "swarm"
version = "0.1.0"
edition = "2021"
publish = false

[dependencies]
roxmltree = "=0.21.2"
serde = { version = "=1.0.229", features = ["derive"] }
serde_json = "=1.0.154"
thiserror = "=2.0.21"
tokio = { version = "=1.54.1", features = ["net", "sync", "time", "rt", "macros"] }
tokio-tungstenite = "=0.30.0"
futures-util = { version = "=0.3.34", features = ["sink"] }
glam = "=0.34.2"
