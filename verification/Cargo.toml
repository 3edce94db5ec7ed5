[package]
name = "ghr"
version = "0.1.0"
edition = "2021"
publish = false

[dependencies]
rand = "0.8"
ndarray = "0.15"
ndarray-linalg = "0.16"
rayon = "1"
once_cell = "1"
