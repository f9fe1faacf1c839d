[package]
name = "rust_dash_map"
version = "0.1.0"
edition = "2021"
publish = false

[dependencies]
bincode = "=1.3.3"
dashmap = { version = "=6.2.1", features = ["rayon"] }
rayon = "=1.12.0"
