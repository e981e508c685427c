[package]
name = "wolfxl"
version = "0.1.0"
edition = "2021"
publish = false

[dependencies]
crc32fast = "1"
miniz_oxide = "0.8"
pyo3 = { version = "0.23", features = ["extension-module", "abi3-py38"] }
