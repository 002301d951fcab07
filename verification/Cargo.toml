[package]
name = "orchestration"
version = "0.1.0"
edition = "2021"
publish = false

[dependencies]
serde = { version = "=1.0.229", features = ["derive"] }
serde_json = "=1.0.154"
tokio = { version = "1", features = ["sync", "time", "rt", "macros"] }
futures = "0.3"
async-trait = "0.1"
uuid = { version = "1", features = ["v4"] }
