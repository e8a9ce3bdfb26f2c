[package]
name = "mcumgr_smp"
version = "0.1.0"
edition = "2021"
publish = false

[dependencies]
tokio = { version = "1", features = ["io-util", "net", "rt", "sync", "time"] }
tokio-serial = { version = "5", default-features = false }
tokio-util = "0.7"
btleplug = "0.11"
futures = "0.3"
uuid = "1"
tracing = "0.1"
