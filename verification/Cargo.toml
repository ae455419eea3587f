[package]
name = "redis_clone"
version = "0.1.0"
edition = "2021"
publish = false

[dependencies]
env_logger = "*"
log = "0.4"
tokio = { version = "1", features = ["io-util", "net", "rt-multi-thread", "sync"] }
