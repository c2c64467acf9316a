[package]
name = "time_scheduler_server"
version = "0.1.0"
edition = "2021"
publish = false

[dependencies]
axum = "0.7"
chrono = { version = "0.4", features = ["serde"] }
indexmap = "2"
jsonwebtoken = "9"
rpassword = "7"
serde = { version = "1", features = ["derive"] }
serde_json = "1"
sha256 = "1"
tokio = { version = "1", features = ["fs", "io-util", "macros", "net", "rt-multi-thread", "sync"] }
