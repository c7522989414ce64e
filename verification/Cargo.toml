[package]
name = "xdp_relay"
version = "0.1.0"
edition = "2021"
publish = false

[dependencies]
aya = "*"
caps = "*"
libc = "*"
log = "*"
