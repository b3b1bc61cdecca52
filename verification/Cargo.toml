[package]
name = "argus_kv"
version = "0.1.0"
edition = "2021"
publish = false

[dependencies]
anyhow = "1"
half = "2"
log = "0.4"
ocl = "0.19"
rayon = "1"
serde_json = "1"
