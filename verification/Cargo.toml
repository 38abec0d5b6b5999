[package]
name = "sirun"
version = "0.1.0"
edition = "2021"
publish = false

[dependencies]
anyhow = "1"
async-std = { version = "1", features = ["attributes", "unstable"] }
libc = "0.2"
serde = { version = "1", features = ["derive"] }
serde_yaml = "*"
