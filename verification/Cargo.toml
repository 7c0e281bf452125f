[package]
name = "tun_rs"
version = "0.1.0"
edition = "2021"
publish = false

[dependencies]
byteorder = "1"
bytes = "1"
libc = "0.2"
encoding_rs = "0.8"
