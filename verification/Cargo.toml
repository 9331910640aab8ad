[package]
name = "mqtt_hub"
version = "0.1.0"
edition = "2021"
publish = false

[dependencies]
bytes = "1"
tokio = { version = "1", default-features = false, features = ["sync", "time", "rt", "macros"] }
tracing = { version = "0.1", default-features = false, features = ["std"] }
