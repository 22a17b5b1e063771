[package]
name = "dynamo_serving"
version = "0.1.0"
edition = "2021"
publish = false

[dependencies]
anyhow = "=1.0.104"
async-stream = "=0.3.6"
dynamo-parsers = "=6.0.4"
dynamo-parsers-v2 = "=0.2.1"
dynamo-protocols = "=6.1.0"
fastrand = "=2.5.0"
futures = "=0.3.34"
serde = { version = "=1.0.229", features = ["derive"] }
serde_json = "=1.0.154"
tokio = { version = "1", features = ["macros", "rt", "sync"] }
tracing = "=0.1.44"
uuid = { version = "=1.29.0", features = ["v4"] }
