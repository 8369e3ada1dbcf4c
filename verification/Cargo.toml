[package]
name = "fast_lio"
version = "0.1.0"
edition = "2021"
publish = false

[dependencies]
nalgebra = "*"
image = { version = "*", default-features = false, features = ["png"] }
ctrlc = "*"
livox-sdk2 = "*"
