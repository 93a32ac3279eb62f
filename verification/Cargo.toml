[package]
name = "lntrn-compositor"
version = "0.1.0"
edition = "2021"
publish = false

[dependencies]
smithay = { version = "*", default-features = false, features = ["wayland_frontend", "desktop"] }
tracing = "*"
libc = "*"
image = { version = "*", default-features = false, features = ["png", "jpeg"] }
resvg = { version = "*", default-features = false }
