[package]
name = "chronoloom"
version = "0.2.0"
edition = "2021"
publish = false

[dependencies]
pyo3 = { version = "*", features = ["abi3-py38"] }
