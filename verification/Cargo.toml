[package]
name = "sge_native_ops"
version = "0.1.0"
edition = "2021"
publish = false

[dependencies]
image = { version = "0.25", default-features = false, features = ["png", "jpeg", "bmp"] }
libc = "0.2"
rapier2d = "*"
rapier3d = "*"
freetype = "*"
