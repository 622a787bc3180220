[package]
name = "envoy"
version = "0.1.0"
edition = "2021"
publish = false

[dependencies]
chrono = "0.4"
serde = { version = "1", features = ["derive"] }
serde_json = "1"
uuid = { version = "1", features = ["v4"] }
sqlitegraph = "*"
ahash = "0.8"
parking_lot = "0.12"
thiserror = "2"
tokio = { version = "1", features = ["full"] }
axum = "0.8"
