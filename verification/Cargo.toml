[package]
name = "whois42d_ng"
version = "0.1.0"
edition = "2021"
publish = false

[dependencies]
ipnet = "2"
axum = "0.8"
clap = { version = "4", features = ["derive"] }
clap_complete = "4"
env_logger = "0.11"
log = "0.4"
serde = { version = "1", features = ["derive"] }
serde_json = "1"
signal-hook = "0.3"
tokio = { version = "1", features = ["full"] }
