[package]
name = "mmr"
version = "0.1.0"
edition = "2021"
publish = false

[dependencies]
alloy = { version = "*", default-features = false }
blake3 = "*"
hex = "*"
