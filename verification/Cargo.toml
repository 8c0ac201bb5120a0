[package]
name = "cloudmon_metrics"
version = "0.1.0"
edition = "2021"
publish = false

[dependencies]
evalexpr = "11"
chrono = "0.4"
hmac = "0.12"
sha2 = "0.10"
jwt = "0.16"
serde_json = "1"
serde = { version = "1", features = ["derive"] }
serde_yaml = "0.9"
reqwest = { version = "0.11", default-features = false, features = ["json"] }
tokio = { version = "1", features = ["macros", "rt-multi-thread", "time", "signal"] }
axum = "0.6"

[dev-dependencies]
regex = "1"
