[package]
name = "sigmut"
version = "0.1.0"
edition = "2021"
publish = false

[dependencies]
slabmap = "*"
serde = "1"

[dev-dependencies]
serde_json = "1"
