[package]
name = "saa"
version = "0.1.0"
edition = "2021"
publish = false

[dependencies]

[dev-dependencies]
loom = "0.7"
