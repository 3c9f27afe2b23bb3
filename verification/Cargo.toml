[package]
name = "doing"
version = "0.1.0"
edition = "2021"
publish = false

[dependencies]
chrono = "0.4"
chrono-english = "0.1"
regex = "1"
uuid = { version = "1", features = ["v4"] }
dirs = "*"
serde_json = "1"
