[package]
name = "distributed_cache"
version = "0.1.0"
edition = "2021"
publish = false

[dependencies]
sha2 = "0.10"
crc32fast = "1"
dashmap = "5"
rand = "0.8"
serde = { version = "1", features = ["derive"] }
serde_json = "1"
bincode = "1"
thiserror = "1"
anyhow = "1"
clap = { version = "4", features = ["derive"] }
tokio = { version = "1", features = ["full"] }
axum = "0.7"
hyper = { version = "0.14", features = ["client", "http1", "tcp", "runtime"] }
tower-http = { version = "0.5", features = ["cors", "trace"] }
tracing = "0.1"
tracing-subscriber = { version = "0.3", features = ["env-filter"] }
prometheus = { version = "0.13", default-features = false }
once_cell = "1"
parking_lot = "0.12"
bytes = "1"
