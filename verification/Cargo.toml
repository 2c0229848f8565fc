[package]
name = "memory_plant"
version = "0.1.0"
edition = "2021"
publish = false

[dependencies]
chacha20poly1305 = "=0.10.1"
dirs = "=5.0.1"
fastembed = { version = "=5.17.4", default-features = false, features = ["hf-hub"] }
flate2 = "=1.1.10"
instant-distance = "=0.6.1"
ndarray = "=0.16.1"
pyo3 = { version = "=0.22.6", features = ["abi3-py38"] }
rand = "=0.9.5"
rand_chacha = "=0.9.0"
regex = "=1.13.1"
serde = { version = "=1.0.229", features = ["derive"] }
serde_json = "=1.0.154"
sha2 = "=0.10.9"
thiserror = "=2.0.21"
uniffi = { version = "=0.31.2", features = ["cli"] }
ureq = { version = "=3.5.1", features = ["json"] }
