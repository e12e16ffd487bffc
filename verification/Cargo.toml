[package]
name = "hash-loop"
version = "0.1.0"
edition = "2021"
publish = false

[dependencies]
cudarc = { version = "=0.19.10", default-features = false, features = ["cuda-13030", "driver", "fallback-dynamic-loading", "nvrtc", "std"] }
rand = "=0.8.8"
rayon = "=1.12.0"
sha1 = "=0.11.0"
structopt = "=0.3.26"
