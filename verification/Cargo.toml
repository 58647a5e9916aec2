[package]
name = "usagedb"
version = "0.1.0"
edition = "2021"
publish = false

[dependencies]
anyhow = "1"
arrow = { version = "*", default-features = false }
axum = "0.8"
bincode = "1.3"
blake3 = "1"
chrono = { version = "0.4", features = ["serde"] }
fs4 = "0.13"
lz4_flex = "0.11"
parquet = { version = "*", default-features = false, features = ["arrow", "zstd"] }
serde = { version = "1", features = ["derive"] }
serde_json = "1"
sqlparser = "*"
thiserror = "2"
tokio = { version = "1", features = ["full"] }
tracing = "0.1"
tracing-subscriber = { version = "0.3", features = ["env-filter"] }
uuid = { version = "1", features = ["v4"] }
zstd = "0.13"
