[package]
name = "xts_mode"
version = "0.1.0"
edition = "2021"
publish = false

[dependencies]
block-cipher = "0.7"
block-padding = "0.1"

[dev-dependencies]
aes = "0.8"
