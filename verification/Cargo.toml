[package]
name = "fast_dep"
version = "0.1.0"
edition = "2021"
publish = false

[dependencies]
log = "0.4"
pest = "2"
pest_derive = "2"
pyo3 = "0.20"
pyo3-log = "0.9"
