[package]
name = "rate_limiter"
version = "0.1.0"
edition = "2021"
publish = false

[dependencies]
async-trait = "0.1"
axum = "0.7"
dashmap = "6"
deadpool-redis = "0.18"
parking_lot = "0.12"
redis = { version = "0.27", features = ["tokio-comp", "script"] }
thiserror = "1"
tower = "0.5"
tracing = "0.1"
