[package]
name = "hypostasis"
version = "0.1.0"
edition = "2021"
publish = false

[dependencies]
crc = "=3.4.0"
glob = "=0.3.4"
