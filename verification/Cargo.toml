[package]
name = "sleipnir"
version = "0.1.0"
edition = "2021"
publish = false

[dependencies]
ahash = "*"
flume = "*"
axum = "*"
clickhouse = "*"
dotenvy = "*"
env_logger = "*"
envy = "*"
log = "*"
prometheus-client = "*"
serde = { version = "*", features = ["derive"] }
tokio = { version = "*", features = ["rt-multi-thread", "net", "io-util", "time", "macros"] }
