[package]
name = "icecat"
version = "0.1.0"
edition = "2021"
publish = false

[dependencies]
arrow-array = "*"
arrow-buffer = "*"
arrow-ipc = "*"
arrow-schema = "*"
arrow-select = "*"
datafusion = { version = "*", default-features = false }
pyo3 = "*"
pyo3-arrow = "*"
rayon = "*"
serde = { version = "*", features = ["derive"] }
serde_json = "*"
sha2 = "*"
tempfile = "*"
thiserror = "*"
tokio = { version = "*", features = ["rt", "macros"] }
