[package]
name = "linear_region_tools"
version = "0.1.0"
edition = "2021"
publish = false

[dependencies]
anyhow = "1"
clap = { version = "4", features = ["derive"] }
fastnbt = "2"
filetime = "0.2"
flate2 = "1"
indicatif = "0.17"
memmap2 = "0.9"
num_cpus = "1"
rayon = "1"
smallvec = "1"
thiserror = "1"
uuid = { version = "1", features = ["v4"] }
zstd = "0.13"
