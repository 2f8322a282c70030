[package]
name = "rust_signals"
version = "0.1.0"
edition = "2021"
publish = false

[dependencies]
hound = "3.5"
numpy = "0.22"
pyo3 = { version = "0.22", features = ["extension-module", "abi3-py38"] }
