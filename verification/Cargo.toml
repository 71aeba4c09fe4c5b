[package]
name = "orion-serve"
version = "0.1.0"
edition = "2021"
publish = false

[dependencies]
async-stream = "=0.3.6"
axum = "=0.8.9"
clap = { version = "=4.6.7", features = ["derive", "env"] }
futures = "=0.3.34"
half = "=2.7.1"
memmap2 = "=0.9.12"
metrics = "=0.24.6"
metrics-exporter-prometheus = { version = "=0.18.3", default-features = false }
rand = "=0.10.3"
rand_chacha = "=0.10.0"
reqwest = { version = "=0.13.5", default-features = false, features = ["json", "stream"] }
safetensors = "=0.8.0"
serde = { version = "=1.0.229", features = ["derive"] }
serde_json = "=1.0.154"
tokenizers = { version = "=0.23.2", default-features = false, features = ["fancy-regex"] }
tokio = { version = "=1.54.1", features = ["rt-multi-thread", "macros", "sync", "time", "net", "signal"] }
tracing = "=0.1.44"
tracing-subscriber = { version = "=0.3.23", features = ["env-filter", "json"] }
uuid = { version = "=1.29.0", features = ["v4"] }
