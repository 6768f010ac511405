[package]
name = "castlog"
version = "0.1.0"
edition = "2021"
publish = false

[dependencies]
serde_json = "*"
base64 = "*"
zstd = "*"
uuid = { version = "*", features = ["v4"] }
