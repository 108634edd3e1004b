[package]
name = "mydsl"
version = "0.1.0"
edition = "2021"
publish = false

[dependencies]
indexmap = { version = "=2.14.2", features = ["serde"] }
serde_json = { version = "=1.0.154", features = ["preserve_order"] }
