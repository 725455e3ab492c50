[package]
name = "pipeline_pulse"
version = "0.1.0"
edition = "2021"
publish = false

[dependencies]
chrono = "*"
regex = "*"
serde = { version = "*", features = ["derive"] }
serde_json = "*"
anyhow = "*"
tokio = { version = "*", features = ["full"] }
axum = "*"
reqwest = { version = "*", default-features = false, features = ["json", "rustls-tls"] }
moka = { version = "*", features = ["future"] }
tracing = "*"
tracing-subscriber = { version = "*", features = ["env-filter"] }
