[package]
name = "para_api"
version = "0.3.0"
edition = "2021"
publish = false

[dependencies]
noeta-ext-abi = "0.5"
serde_json = { version = "=1.0.154", features = ["preserve_order"] }
