[package]
name = "rustbpe"
version = "0.1.0"
edition = "2021"
publish = false

[dependencies]
ahash = "0.8"
compact_str = "0.9"
dary_heap = "0.3"
fancy-regex = "0.16"
log = "0.4"
pyo3 = { version = "0.23", features = ["extension-module"] }
pyo3-log = "0.12"
rayon = "1"
