[package]
name = "tabdiff"
version = "0.1.0"
edition = "2021"
publish = false

[dependencies]
anyhow = "1"
arrow = "*"
clap = { version = "4", features = ["derive"] }
parquet = { version = "*", default-features = false, features = ["arrow", "snap"] }
pyo3 = "*"
serde = { version = "1", features = ["derive"] }
serde_json = "1"
twox-hash = "2"
