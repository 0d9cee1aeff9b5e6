[package]
name = "telemetry_core"
version = "0.1.0"
edition = "2021"
publish = false

[dependencies]
tokio = { version = "1", features = ["full"] }
hyper = { version = "0.14", features = ["full"] }
http-auth-basic = "*"
clap = { version = "4", features = ["derive"] }
log = "*"
pretty_env_logger = "*"
