[package]
name = "opensnow"
version = "0.1.0"
edition = "2021"
publish = false

[dependencies]
anyhow = "1"
axum = "0.8"
base64 = "0.22"
bcrypt = "0.15"
datafusion = { version = "*", default-features = false }
datafusion-common = { version = "*", default-features = false }
jsonwebtoken = "9"
parquet = { version = "*", default-features = false }
reqwest = { version = "0.12", default-features = false }
serde = { version = "1", features = ["derive"] }
serde_json = "1"
sqlparser = "*"
thiserror = "1"
tokio = { version = "1", features = ["rt-multi-thread", "macros", "net", "io-util", "sync"] }
tracing = "0.1"
tracing-subscriber = { version = "0.3", features = ["env-filter"] }
uuid = { version = "1", features = ["v4"] }
