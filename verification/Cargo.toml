[package]
name = "gitpure"
version = "0.1.0"
edition = "2021"
publish = false

[dependencies]
gix = { version = "*", features = ["blocking-network-client"] }
pyo3 = "*"
