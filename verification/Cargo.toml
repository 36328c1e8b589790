[package]
name = "analyse"
version = "0.1.0"
edition = "2021"
publish = false

[dependencies]
memmap2 = "=0.9.12"
rustc-hash = "=2.1.3"
