[package]
name = "sniper"
version = "0.1.0"
edition = "2021"
publish = false

[dependencies]
dashmap = "5"
qp-trie = "0.8"
regex = "1"
priority-queue = "2"
serde = { version = "1", features = ["derive"] }
serde_json = "1"
toml = "0.8"
directories = "5"
tokio = { version = "1", features = ["full"] }
tarpc = { version = "0.34", features = ["full"] }
tokio-serde = { version = "0.8", features = ["bincode"] }
tokio-util = { version = "0.7", features = ["codec"] }
futures = "0.3"
anyhow = "1"
tracing = "0.1"
tracing-subscriber = "0.3"
opentelemetry = "0.21"
opentelemetry_sdk = { version = "0.21", features = ["rt-tokio"] }
opentelemetry-jaeger = { version = "0.20", features = ["rt-tokio"] }
tracing-opentelemetry = "0.22"
