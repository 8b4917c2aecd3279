[package]
name = "magpyxl"
version = "0.1.0"
edition = "2021"
publish = false

[dependencies]
arrow = { version = "=45.0.0", default-features = false, features = ["ffi"] }
# Not used directly: arrow 45 does not compile with later releases of chrono.
chrono = { version = "=0.4.38", default-features = false }
numpy = "=0.22.1"
pyo3 = { version = "=0.22.6", features = ["abi3-py38", "extension-module"] }
rayon = "=1.12.0"
