[package]
name = "typescript_tools"
version = "0.1.0"
edition = "2021"
publish = false

[dependencies]
pathdiff = "0.2"
serde = { version = "1", features = ["derive"] }
serde_json = { version = "1", features = ["preserve_order"] }
