[package]
name = "chud"
version = "0.1.0"
edition = "2021"
publish = false

[dependencies]
sha2 = "0.10"
captcha-rs = "=0.5.0"
hex = "=0.4.3"
serde = { version = "=1.0.229", features = ["derive"] }
serde_json = "=1.0.154"
async-channel = "=1.9.0"
futures = "=0.3.34"
tokio = { version = "=1.54.1", features = ["macros", "rt-multi-thread", "time", "fs", "io-util"] }
clap = { version = "=4.6.7", features = ["derive"] }
env_logger = "=0.10.2"
log = "=0.4.35"
instant = "=0.1.13"
actix-web = { version = "=4.18.1", default-features = false, features = ["macros"] }

[dev-dependencies]
blake3 = "=1.8.7"
