[package]
name = "fintech"
version = "0.1.0"
edition = "2021"
publish = false

[dependencies]
chrono = { version = "0.4", default-features = false, features = ["std"] }
csv = "1"
libc = "0.2"
ndarray = "0.16"
ndarray-stats = "0.6"
noisy_float = "0.2"
pyo3 = "*"
