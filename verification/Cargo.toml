[package]
name = "rustchunker"
version = "0.1.0"
edition = "2021"
publish = false

[dependencies]
base64 = "0.22"
env_logger = "0.11"
fancy-regex = "0.14"
log = "0.4"
num_cpus = "1"
pdfium-render = "0.8"
pyo3 = { version = "0.23", features = ["extension-module"] }
rayon = "1"
regex = "1"
rustc-hash = "2"
serde = { version = "1", features = ["derive"] }
thiserror = "1"
tokio = { version = "1", features = ["rt-multi-thread"] }
