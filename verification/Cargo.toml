[package]
name = "narrator"
version = "0.1.0"
edition = "2021"
publish = false

[dependencies]
anyhow = "1"
async-stream = "0.3"
axum = "=0.8.9"
base64 = "=0.22.1"
chrono = "0.4"
epub = "=2.1.6"
flate2 = "=1.1.10"
hound = "3"
ndarray = "0.16"
num2words = "=1.2.0"
ort = { version = "=2.0.0-rc.10", default-features = false, features = ["std", "ndarray", "load-dynamic"] }
percent-encoding = "=2.3.2"
rusqlite = { version = "=0.32.1", features = ["bundled"] }
scraper = "=0.20.0"
serde = { version = "1", features = ["derive"] }
serde_json = "1"
tempfile = "3"
thiserror = "2"
tokio = { version = "1", features = ["full"] }
tokio-util = { version = "0.7", features = ["io"] }
tower = { version = "0.5", features = ["util"] }
tower-http = { version = "=0.6.11", features = ["fs", "trace", "cors"] }
tracing = "0.1"
tracing-subscriber = { version = "0.3", features = ["env-filter"] }
unicode-general-category = "=1.1.0"
utoipa = { version = "=5.5.0", features = ["axum_extras"] }
utoipa-axum = "=0.2.0"
whisper-rs = "=0.16.0"
