[package]
name = "broadcast_discovery"
version = "0.1.0"
edition = "2021"
publish = false

[dependencies]
local-ip-address = "*"
mac_address = "*"
tokio = { version = "*", features = ["full"] }
