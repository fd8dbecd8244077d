[package]
name = "obagg"
version = "0.1.0"
edition = "2021"
publish = false

[dependencies]
env_logger = "*"
futures = "*"
futures-util = "*"
log = "*"
reqwest = { version = "*", default-features = false }
rust_decimal = "*"
serde = { version = "*", features = ["derive"] }
serde_json = "*"
serde_yaml = "*"
structopt = "*"
syslog = "*"
tokio = { version = "*", features = ["full"] }
tokio-tungstenite = "*"
url = "*"
uuid = { version = "*", features = ["v4"] }
