[package]
name = "turbofile"
version = "0.1.4"
edition = "2021"
publish = false

[dependencies]
libc = "=0.2.191"
flume = "=0.11.1"
compio = { version = "=0.19.2", features = ["fs", "io", "runtime", "io-uring", "polling"] }
io-uring = "=0.7.15"
pyo3 = { version = "=0.25.1", features = ["abi3-py312", "extension-module"] }
