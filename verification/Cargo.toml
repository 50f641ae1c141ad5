[package]
name = "space_hierarchy"
version = "0.1.0"
edition = "2021"
publish = false

[dependencies]
matrix-sdk = { version = "=0.18.0", default-features = false }
