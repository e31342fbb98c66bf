[package]
name = "dsalgo"
version = "0.1.0"
edition = "2021"
publish = false

[dependencies]
priority-queue = "*"
serde = { version = "1", features = ["derive"] }
serde_json = "1"
