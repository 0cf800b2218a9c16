[package]
name = "silent_nats"
version = "0.1.0"
edition = "2021"
publish = false

[dependencies]
chrono = { version = "=0.4.45", features = ["serde"] }
scru128 = "=2.8.1"
serde = { version = "=1.0.229", features = ["derive"] }
serde_json = "=1.0.154"
silent = "=2.16.2"
thiserror = "=2.0.21"
tokio = { version = "=1.54.1", features = ["full"] }
tracing = "=0.1.44"
tracing-subscriber = { version = "=0.3.23", features = ["env-filter"] }
