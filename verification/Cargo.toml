[package]
name = "updatekit"
version = "0.1.0"
edition = "2021"
publish = false

[dependencies]
anyhow = "*"
self-replace = "*"
tough = "*"
url = "*"
