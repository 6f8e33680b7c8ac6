[package]
name = "credsync"
version = "0.1.0"
edition = "2021"
publish = false

[dependencies]
axum = "=0.8.9"
jsonwebtoken = "=9.3.1"
serde = { version = "=1.0.229", features = ["derive"] }
serde_json = { version = "=1.0.154", features = ["raw_value"] }
tokio = { version = "=1.54.1", features = ["macros", "net", "rt-multi-thread", "time"] }
tokio-postgres = { version = "=0.7.18", features = ["with-serde_json-1"] }

[dev-dependencies]
base64 = "=0.22.1"
