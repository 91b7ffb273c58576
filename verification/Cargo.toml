[package]
name = "json_proc"
version = "0.1.0"
edition = "2021"
publish = false

[dependencies]
memchr = "*"

[dev-dependencies]
serde_json = "*"
