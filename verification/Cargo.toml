[package]
name = "updater"
version = "0.1.0"
edition = "2021"
publish = false

[dependencies]
chrono = "*"
axum = "*"
tokio = { version = "*", features = ["rt-multi-thread", "macros", "net", "fs"] }
anyhow = "*"
log = "*"
pretty_env_logger = "*"
serde = { version = "*", features = ["derive"] }
