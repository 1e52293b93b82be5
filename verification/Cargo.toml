[package]
name = "cvdt"
version = "0.7.0"
edition = "2021"
publish = false

[dependencies]
numpy = "0.22"
pyo3 = { version = "0.22", features = ["abi3-py38", "extension-module"] }
