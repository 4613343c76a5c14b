[package]
name = "crossvault"
version = "0.1.0"
edition = "2021"
publish = false

[dependencies]
rand = "0.9"
random_word = { version = "0.4", features = ["en"] }
clap = { version = "4", features = ["derive"] }
log = "0.4"
env_logger = "0.11"
anyhow = "1"
