[package]
name = "paillier"
version = "0.1.0"
edition = "2021"
publish = false

[dependencies]
rug = { version = "1", default-features = false, features = ["integer"] }
gmp-mpfr-sys = { version = "~1.5.3", default-features = false, features = ["use-system-libs"] }
rand = "=0.8.8"
rayon = "=1.12.0"
pyo3 = { version = "=0.23.5", features = ["extension-module"] }
