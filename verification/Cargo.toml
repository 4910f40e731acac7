[package]
name = "triangulator"
version = "0.1.0"
edition = "2021"
publish = false

[dependencies]
ndarray = "=0.16.1"
ndarray-rand = "=0.15.0"
ndarray-npy = { version = "=0.9.1", default-features = false }
ndarray-conv = "0.5"
delaunator = "=1.1.0"
rand = "=0.9.5"
clap = "=4.6.7"
image = { version = "=0.25.10", default-features = false, features = ["png", "jpeg"] }
