[package]
name = "mcp_forge"
version = "0.1.0"
edition = "2021"
publish = false

[dependencies]
base64 = "*"
chrono = "*"
dirs = "*"
serde = { version = "*", features = ["derive"] }
serde_yaml = "*"
url = "*"
