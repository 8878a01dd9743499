[package]
name = "pollywiki"
version = "0.1.0"
edition = "2021"
publish = false

[dependencies]
anyhow = "=1.0.104"
aws-config = "=1.13.0"
aws-sdk-s3 = "=1.157.0"
chrono = "=0.4.45"
icu = "=2.4.0"
indexmap = { version = "=2.14.2", features = ["serde"] }
percent-encoding = "=2.3.2"
reqwest = { version = "=0.12.28", default-features = false, features = ["json", "rustls-tls"] }
serde = { version = "=1.0.229", features = ["derive"] }
serde_json = "=1.0.154"
tokio = { version = "=1.54.1", features = ["full"] }
unicode-normalization = "=0.1.26"
