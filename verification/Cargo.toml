[package]
name = "satis"
version = "0.1.0"
edition = "2021"
publish = false

[dependencies]
anyhow = "1"
clap = { version = "4", features = ["derive"] }
env_logger = "0.10"
log = "0.4"
rand = "0.8"
regex = "1"
rustyline = "*"
serde = { version = "1", features = ["derive"] }
serde_yaml = "0.9"
