[package]
name = "lansight"
version = "0.1.0"
edition = "2021"
publish = false

[dependencies]
aes = "0.8"
axum = "0.7"
base64 = "0.22"
cbc = { version = "0.1", features = ["alloc", "block-padding"] }
futures = "0.3"
getrandom = "0.2"
hex = "0.4"
local-ip-address = "0.6"
md-5 = "0.10"
num-bigint-dig = "0.8"
reqwest = { version = "0.12", default-features = false, features = ["json"] }
serde = { version = "1", features = ["derive"] }
serde_json = "1"
tokio = { version = "1", features = ["full"] }
