[package]
name = "spack"
version = "0.1.0"
edition = "2021"
publish = false

[dependencies]
blake3 = "1"
ctrlc = "3"
ppmd-rust = "1"
serde = { version = "1", features = ["derive"] }
serde_json = "1"
tempfile = "3"
zstd = "0.13"
