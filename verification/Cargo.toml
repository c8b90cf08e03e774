[package]
name = "waycore"
version = "0.1.0"
edition = "2021"
publish = false

[dependencies]
calloop = "*"
smithay = { version = "*", default-features = false, features = ["wayland_frontend"] }
wayland-server = "*"
