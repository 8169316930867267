[package]
name = "blind_compute"
version = "0.1.0"
edition = "2021"
publish = false

[dependencies]
anyhow = "=1.0.104"
fhe = "=0.1.1"
fhe-traits = "=0.1.1"
rand = "0.9"
