[package]
name = "topics"
version = "0.1.0"
edition = "2021"
publish = false

[dependencies]
base64 = "=0.22.1"
serde_json = "=1.0.154"
serde = { version = "=1.0.229", features = ["derive"] }
parking_lot = "=0.12.5"
dashmap = "=6.2.1"
tokio = { version = "=1.54.1", features = ["sync"] }
tracing = "=0.1.44"
fail = "=0.5.1"
