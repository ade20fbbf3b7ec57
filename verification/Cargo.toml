[package]
name = "fast_filelist"
version = "0.1.0"
edition = "2021"
publish = false

[dependencies]
indicatif = "0.17"
pyo3 = { version = "0.20", features = ["extension-module", "abi3-py38"] }
rayon = "1"
walkdir = "2"
