[package]
name = "wireguard-gui"
version = "1.6.2"
edition = "2021"
publish = false

[dependencies]
qrcode = { version = "0.14", default-features = false }
libc = "0.2"
