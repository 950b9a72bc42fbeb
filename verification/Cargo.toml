[package]
name = "lumen"
version = "0.1.0"
edition = "2021"
publish = false

[dependencies]
ndarray = { version = "=0.15.6", features = ["rayon"] }
ndarray-rand = "=0.14.0"
rand_distr = "=0.4.3"
half = "=2.7.1"
safetensors = "=0.4.5"
memmap2 = "=0.9.12"
bincode = "=1.3.3"
serde = { version = "=1.0.229", features = ["derive"] }
serde_json = "=1.0.154"
mimalloc = "=0.1.52"
tokenizers = { version = "=0.23.2", default-features = false, features = ["onig"] }
