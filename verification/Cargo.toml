[package]
name = "goat_db"
version = "0.1.0"
edition = "2021"
publish = false

[dependencies]
bytes = "1"
crc32fast = "1"
twox-hash = "1.6"
tokio = { version = "1", default-features = false, features = ["sync"] }
tracing-appender = "0.2"
tracing-subscriber = { version = "0.3", features = ["env-filter"] }
