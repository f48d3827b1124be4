[package]
name = "minimald_net"
version = "0.1.0"
edition = "2021"
publish = false

[dependencies]
hickory-proto = "*"
libc = "0.2"
serde = { version = "1", features = ["derive"] }
serde_json_lenient = "*"
thiserror = "*"
tokio = { version = "1", features = ["fs", "io-util", "macros", "net", "process", "rt", "rt-multi-thread", "sync", "time"] }
tokio-util = "0.7"
tokio-vsock = "*"
tracing = "0.1"
