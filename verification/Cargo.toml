[package]
name = "pbft_core"
version = "0.1.0"
edition = "2021"
publish = false

[dependencies]
ed25519-dalek = "2"
ring = "*"
hex = "*"
serde = { version = "*", features = ["derive"] }
serde_json = "*"
tokio = { version = "*", features = ["full"] }
rand = "0.8"
log = "*"
env_logger = "*"
chrono = "*"
lazy_static = "*"
