[package]
name = "cryptg"
version = "0.1.0"
edition = "2021"
publish = false

[dependencies]
aes = "=0.9.3"
pyo3 = "=0.30.1"

[dev-dependencies]
grammers-crypto = "=0.10.0"
