[package]
name = "witchhat_core"
version = "0.1.0"
edition = "2021"
publish = false

[dependencies]
arrow = { version = "=56.2.1", default-features = false, features = ["pyarrow"] }
arrow-array = "=56.2.1"
arrow-data = "=56.2.1"
arrow-row = "=56.2.1"
arrow-schema = "=56.2.1"
arrow-select = "=56.2.1"
pyo3 = { version = "=0.25.1", features = ["abi3-py310", "extension-module"] }
regex = "=1.13.1"
serde_json = "=1.0.154"
thiserror = "=2.0.21"
xxhash-rust = { version = "=0.8.19", features = ["xxh3"] }
