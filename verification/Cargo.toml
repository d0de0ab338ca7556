[package]
name = "dns_server"
version = "0.1.0"
edition = "2021"
publish = false

[dependencies]
bytes = "1"
log = "0.4"
clap = { version = "4", features = ["derive"] }
fern = "0.6"
futures = "0.3"
tokio = { version = "1", features = ["rt-multi-thread", "macros", "net", "sync", "time"] }
tokio-util = { version = "0.7", features = ["codec", "net"] }
