[package]
name = "velox_server"
version = "0.1.0"
edition = "2021"
publish = false

[dependencies]
byteorder = "1"
rand = "0.8"
simple-vector2d = "*"

[dev-dependencies]
bincode = "1"
