[package]
name = "raybvh"
version = "0.1.0"
edition = "2021"
publish = false

[dependencies]
arrayvec = "*"
image = { version = "*", default-features = false, features = ["png", "jpeg"] }
indicatif = "*"
json = "*"
rand = "*"
rayon = "*"
