[package]
name = "binary_vdf"
version = "0.1.0"
edition = "2021"
publish = false

[dependencies]
crc = "*"
serde = { version = "*", features = ["derive"] }
serde-value = "*"
indexmap = { version = "*", features = ["serde"] }
anyhow = "*"
vdf-serde = "*"
