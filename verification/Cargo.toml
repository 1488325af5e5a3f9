[package]
name = "datacartridge"
version = "0.1.0"
edition = "2021"
publish = false

[dependencies]
anyhow = "1"
ciborium = "0.2"
csv = "1"
serde = { version = "1", features = ["derive"] }
serde_json = "1"
serde_yaml = "0.9"
tokio = { version = "1", features = ["macros", "rt-multi-thread"] }
tracing = "0.1"
