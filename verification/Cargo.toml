[package]
name = "brioche_cache"
version = "0.1.0"
edition = "2021"
publish = false

[dependencies]
anyhow = "=1.0.104"
async-trait = "=0.1.92"
axum = "=0.8.9"
bytes = "=1.12.1"
bytesize = { version = "=2.7.0", features = ["serde"] }
clap = { version = "=4.6.7", features = ["derive"] }
figment = { version = "=0.10.19", features = ["toml", "env"] }
futures = "=0.3.34"
hex = "=0.4.3"
http = "=1.5.0"
http-body = "=1.1.0"
lru = "=0.19.0"
metrics = "=0.24.6"
miette = "=7.6.0"
pin-project-lite = "=0.2.17"
reqwest = { version = "=0.12.28", default-features = false, features = ["json", "stream", "rustls-tls"] }
rlimit = "=0.11.0"
serde = { version = "=1.0.229", features = ["derive"] }
tempfile = "=3.27.0"
thiserror = "=2.0.21"
tokio = { version = "=1.54.1", features = ["full"] }
tokio-stream = "=0.1.19"
tokio-util = { version = "=0.7.20", features = ["io"] }
tower = "=0.5.3"
tower-http = { version = "=0.6.11", features = ["trace"] }
tracing = "=0.1.44"
tracing-subscriber = { version = "=0.3.23", features = ["env-filter"] }
url = { version = "=2.5.8", features = ["serde"] }
uuid = { version = "=1.29.0", features = ["v4"] }
