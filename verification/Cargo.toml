[package]
name = "mini_redis"
version = "0.1.0"
edition = "2021"
publish = false

[dependencies]
bytes = "1"
chrono = "0.4"
memchr = "2"
thiserror = "2"
futures = "0.3"
tokio = { version = "1", features = ["rt-multi-thread", "macros", "net", "io-util"] }
tokio-util = { version = "0.7", features = ["codec"] }
