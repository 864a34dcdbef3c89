[package]
name = "wal"
version = "0.1.0"
edition = "2021"
publish = false

[dependencies]
byteorder = "1"
crc = "1"
hex = "0.4"

[dev-dependencies]
rand = "0.7"
