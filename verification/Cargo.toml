[package]
name = "live_recordings"
version = "0.1.0"
edition = "2021"
publish = false

[dependencies]
anyhow = "=1.0.104"
axum = "=0.8.9"
chrono = "=0.4.45"
fs2 = "=0.4.3"
http = "=1.5.0"
opendal = { version = "=0.54.1", features = ["services-s3"] }
reqwest = { version = "=0.12.28", default-features = false, features = ["json", "rustls-tls"] }
serde = { version = "=1.0.229", features = ["derive"] }
serde_json = "=1.0.154"
tokio = { version = "=1.54.1", features = ["full"] }
toml = "0.8"
tracing = "=0.1.44"
tracing-subscriber = { version = "0.3", features = ["env-filter"] }
