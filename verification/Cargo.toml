[package]
name = "gdssim"
version = "0.1.0"
edition = "2021"

[dependencies]
gds21 = "*"
earcutr = "*"
serde = { version = "1", features = ["derive"] }
serde_json = "1"
thiserror = "*"
log = "*"
env_logger = "*"
