[package]
name = "vision_kernels"
version = "0.1.0"
edition = "2021"
publish = false

[dependencies]
ndarray = { version = "0.16", features = ["rayon"] }
numpy = "0.22"
pyo3 = "0.22"
rayon = "1"
