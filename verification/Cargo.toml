[package]
name = "safetensors_surgery"
version = "0.1.0"
edition = "2021"
publish = false

[dependencies]
safetensors = "0.5"
serde = { version = "1", features = ["derive"] }
serde_json = "1"
half = "2"
ndarray = "0.16"
memmap2 = "0.9"
thiserror = "2"
anyhow = "1"
clap = { version = "4", features = ["derive"] }
indicatif = "0.17"
blas-src = "*"
