[package]
name = "my_consistent_hashing"
version = "0.1.0"
edition = "2021"
publish = false

[dependencies]
serde = { version = "1", features = ["derive"] }
serde_json = "1"
consistent_hasher = "*"
reqwest = { version = "0.12", features = ["json"] }
aws-config = "1"
aws-sdk-ecs = "1"
rocket = { version = "0.5", features = ["json"] }
