[package]
name = "allotize"
version = "0.1.0"
edition = "2021"
publish = false

[dependencies]
base64 = "0.13"
chrono = "0.4"
jsonwebtoken = "7"
serde = { version = "1", features = ["derive"] }
serde_json = "1"
thiserror = "1"
dashmap = "5"
futures = "0.3"
tokio = { version = "1", features = ["macros", "rt-multi-thread", "sync"] }
tokio-stream = "0.1"
tracing = "0.1"
tracing-subscriber = "0.3"
warp = "0.3"
