[package]
name = "node_discovery"
version = "0.1.0"
edition = "2021"
publish = false

[dependencies]
uuid = { version = "*", features = ["v4"] }
tokio = { version = "*", features = ["full"] }
clap = { version = "*", features = ["derive"] }
log = "*"
log4rs = "*"
