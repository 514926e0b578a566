[package]
name = "kzg_algebra"
version = "0.1.0"
edition = "2021"
publish = false

[dependencies]
ark-std = "0.4"
rand = "0.8"
