[package]
name = "gguf_rs"
version = "0.1.0"
edition = "2021"
publish = false

[dependencies]
half = "=2.7.1"
memmap2 = "=0.9.12"
rayon = "=1.12.0"
wide = "=1.7.1"
clap = { version = "=4.6.7", features = ["derive"] }
anyhow = "=1.0.104"
thiserror = "=2.0.21"
serde_json = "=1.0.154"
sysinfo = "=0.40.1"
ash = "=0.38.0"
cubecl = { version = "=0.10.0", default-features = false, features = ["wgpu"] }
