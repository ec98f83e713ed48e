[package]
name = "rust_proxy_server"
version = "0.1.0"
edition = "2021"
publish = false

[dependencies]
aws-lc-rs = "1"
bytes = "1"
env_logger = "0.11"
futures = "0.3"
h3 = "0.0.8"
h3-quinn = "0.0.10"
http = "1"
log = "0.4"
lru = "*"
md-5 = "*"
quinn = "0.11"
rand = "0.10"
rcgen = "*"
rustc-hash = "2"
rustls = "0.23"
rustls-pemfile = "2"
serde = { version = "1", features = ["derive"] }
serde_yaml = "0.9"
socket2 = "*"
tokio = { version = "1", features = ["full"] }
tokio-rustls = "0.26"
tokio-util = "0.7"
