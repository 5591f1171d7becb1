[package]
name = "backbeat"
version = "0.1.0"
edition = "2021"
publish = false

[dependencies]
anyhow = "=1.0.104"
arrow = "=60.1.0"
bach = "=0.2.0"
bytes = "=1.12.1"
clap = { version = "=4.6.7", features = ["derive"] }
inventory = "=0.3.25"
libc = "=0.2.191"
memmap2 = "=0.9.12"
mimalloc = "=0.1.52"
parquet = { version = "=60.1.0", features = ["arrow"] }
proc-macro2 = "=1.0.107"
quote = "=1.0.47"
rayon = "=1.12.0"
serde_json = "=1.0.154"
syn = { version = "=2.0.119", features = ["full"] }
zerocopy = { version = "=0.8.63", features = ["derive"] }
