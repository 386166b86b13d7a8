[package]
name = "graph-r"
version = "0.2.1"
edition = "2021"
publish = false

[dependencies]
xxhash-rust = { version = "0.8", features = ["xxh3"] }
memmap2 = "0.9"
libc = "0.2"
thiserror = "*"
smallvec = "1"
pyo3 = { version = "*", features = ["abi3-py312", "extension-module"] }
tokio = { version = "1", features = ["rt"] }
