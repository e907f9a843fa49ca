[package]
name = "mastersrv_config"
version = "0.1.0"
edition = "2021"
publish = false

[dependencies]
base64 = "0.13"
sha2 = "0.10"
serde = { version = "1", features = ["derive"] }
serde_json = "1"
toml = "0.8"
