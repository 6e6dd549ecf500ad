[package]
name = "watchmanx"
version = "0.1.0"
edition = "2021"
publish = false

[dependencies]
anyhow = "=1.0.104"
axum = "=0.7.9"
clap = { version = "=4.6.7", features = ["derive"] }
colored = "=2.2.0"
futures-util = "=0.3.34"
glob = "=0.3.4"
notify = "=6.1.1"
serde = { version = "=1.0.229", features = ["derive"] }
serde_json = "=1.0.154"
serde_yaml = "=0.9.34"
tokio = { version = "=1.54.1", features = ["full"] }
tokio-stream = { version = "=0.1.19", features = ["sync"] }
tokio-util = "=0.7.20"
toml = "=0.8.23"
tower-http = { version = "=0.5.2", features = ["fs"] }
tracing = "=0.1.44"
tracing-subscriber = "=0.3.23"
wasmer = "4"
