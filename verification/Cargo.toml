[package]
name = "wireguard_uapi"
version = "0.1.0"
edition = "2021"
publish = false

[dependencies]
libc = "*"
neli = "*"
