[package]
name = "put"
version = "0.1.0"
edition = "2021"
publish = false

[dependencies]
curl = "0.4"
dirs = "*"
percent-encoding = "2"
serde = { version = "1", features = ["derive"] }
serde_json = "1"
serde_yaml = "0.8"
sqlite = "*"
