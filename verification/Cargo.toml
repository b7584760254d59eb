[package]
name = "chd"
version = "0.1.0"
edition = "2021"
publish = false

[dependencies]
claxon = "*"
inflate = "*"
lzma-rs = "*"

[dev-dependencies]
crc16 = "*"
