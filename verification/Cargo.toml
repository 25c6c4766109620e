[package]
name = "patchkit"
version = "0.1.0"
edition = "2021"
publish = false

[dependencies]
anyhow = "=1.0.104"
blake3 = "=1.8.7"
clap = { version = "=4.6.7", features = ["derive"] }
indicatif = "=0.18.6"
path-slash = "=0.2.1"
rayon = "=1.12.0"
walkdir = "=2.5.0"
