[package]
name = "feather_cli"
version = "0.1.0"
edition = "2021"
publish = false

[dependencies]
anyhow = "1"
clap = { version = "4", features = ["derive"] }
ndarray = "0.16"
ndarray-npy = { version = "0.9", default-features = false }
