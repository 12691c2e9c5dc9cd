[package]
name = "clash_guard"
version = "0.1.0"
edition = "2021"
publish = false

[dependencies]
uuid = { version = "*", features = ["v4"] }
serde = { version = "*", features = ["derive"] }
serde_yaml = "*"
anyhow = "*"
log = "*"
