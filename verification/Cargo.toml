[package]
name = "tst"
version = "0.1.0"
edition = "2021"
publish = false

[dependencies]
anyhow = "1"
atty = "0.2"
avt = "0.9"
clap = { version = "3", features = ["derive"] }
env_logger = "0.9"
futures-util = "0.3"
log = "0.4"
regex = "=1.13.1"
serde = { version = "1", features = ["derive"] }
serde_json = "1"
termion = "2"
tokio = { version = "1", features = ["full"] }
tokio-stream = { version = "0.1", features = ["sync"] }
tokio-tungstenite = { version = "0.21", features = ["rustls-tls-webpki-roots"] }
url = "=2.5.8"
warp = "0.3"
