[package]
name = "ai_server"
version = "0.1.0"
edition = "2021"

[dependencies]
itertools = "0.12"
rocket = "0.5"
serde_json = "1"
