[package]
name = "zkevm"
version = "0.1.0"
edition = "2021"
publish = false

[dependencies]
rand = "0.8"
rand_xorshift = "0.3"
serde = { version = "1", features = ["derive"] }
serde_json = "1"
log = "0.4"
env_logger = "*"
dotenv = "*"
clap = { version = "4", features = ["derive"] }
anyhow = "1"
