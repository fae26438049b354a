[package]
name = "protocol"
version = "0.1.0"
edition = "2021"
publish = false

[dependencies]
rand = "*"
anyhow = "*"
futures-util = "*"
tokio = { version = "*", features = ["net", "rt", "rt-multi-thread", "macros", "sync", "io-util", "time"] }
tracing = "*"
tracing-appender = "*"
tracing-subscriber = { version = "*", features = ["env-filter", "fmt"] }
