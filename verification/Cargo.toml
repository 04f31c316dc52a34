[package]
name = "bookmark_store"
version = "0.1.0"
edition = "2021"
publish = false

[dependencies]
pyo3 = { version = "=0.20.3", features = ["extension-module", "abi3-py37"] }
