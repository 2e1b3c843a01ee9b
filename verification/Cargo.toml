[package]
name = "hashlife"
version = "0.1.0"
edition = "2021"
publish = false

[dependencies]
ca-formats = "*"
ca-rules = "*"
rustc-hash = "*"
slab = "*"
flate2 = "*"
sdl2 = "*"
