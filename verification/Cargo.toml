[package]
name = "s3stream"
version = "0.1.0"
edition = "2021"
publish = false

[dependencies]
bytes = "1"
crc32fast = "1"
lru = "*"
async-trait = "0.1"
futures = "0.3"
metrics = "*"
thiserror = "2"
tokio = { version = "1", features = ["macros", "rt", "rt-multi-thread", "sync", "time"] }
tracing = "0.1"
