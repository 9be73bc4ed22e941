[package]
name = "rollout_policy"
version = "0.1.0"
edition = "2021"
publish = false

[dependencies]
cbloom = "*"
serde = { version = "*", features = ["derive"] }
serde_json = "*"
