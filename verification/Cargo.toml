[package]
name = "fastrp"
version = "0.1.0"
edition = "2021"
publish = false

[dependencies]
ndarray = { version = "0.16", features = ["rayon"] }
rand = "0.8"
rand_xoshiro = "0.6"
rayon = "1"
sprs = "0.11"
