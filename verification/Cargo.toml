[package]
name = "lsb_reader"
version = "0.1.0"
edition = "2021"
publish = false

[dependencies]
bitstream-io = "*"
image = { version = "*", default-features = false, features = ["png", "bmp"] }
