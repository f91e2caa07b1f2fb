[package]
name = "zeroclaw_sessions"
version = "0.1.0"
edition = "2021"
publish = false

[dependencies]
chrono = "0.4"
lru = "*"
parking_lot = "0.12"
serde = { version = "1", features = ["derive"] }
serde_json = "1"
tempfile = "3"
tokio = { version = "1", features = ["fs", "rt"] }
tracing = "0.1"
uuid = { version = "1", features = ["v4"] }
