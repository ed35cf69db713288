[package]
name = "tasktrack"
version = "0.1.0"
edition = "2021"
publish = false

[dependencies]
chrono = { version = "=0.4.45", features = ["serde"] }
axum = "=0.8.9"
tokio = { version = "=1.53.2", features = ["rt-multi-thread", "macros", "net", "time", "sync"] }
serde = { version = "=1.0.229", features = ["derive"] }
serde_json = "=1.0.151"
parking_lot = "=0.12.5"
tower-http = { version = "=0.7.1", features = ["cors"] }
