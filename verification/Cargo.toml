[package]
name = "rusticrayz"
version = "0.1.0"
edition = "2021"
publish = false

[dependencies]
glam = "0.24"
rand = "0.8"
itertools = "0.12"
noise = "0.8"
image = { version = "0.24", default-features = false, features = ["png", "jpeg"] }
