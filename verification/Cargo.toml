[package]
name = "erps"
version = "0.1.0"
edition = "2021"
publish = false

[dependencies]
clap = "2.33"
crossbeam-channel = "0.5"
env_logger = "0.7"
failure = "0.1"
log = "0.4"
mysql = "17"
rumqtt = "0.31"
serde = { version = "1", features = ["derive"] }
serde_json = "1"
toml = "0.5"
uuid = { version = "0.8", features = ["v4"] }
