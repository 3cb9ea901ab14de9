[package]
name = "redis_core"
version = "0.1.0"
edition = "2021"
publish = false

[dependencies]
anyhow = "1"
chrono = { version = "0.4", default-features = false, features = ["now"] }
tokio = { version = "1", default-features = false, features = ["sync", "rt-multi-thread", "net", "io-util", "macros", "signal", "time"] }
