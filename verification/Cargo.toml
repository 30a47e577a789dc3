[package]
name = "logging_system"
version = "0.1.0"
edition = "2021"
publish = false

[dependencies]
serde = { version = "*", features = ["derive"] }
serde_json = "*"
rmp-serde = "*"
crc32fast = "*"
