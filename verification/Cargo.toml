[package]
name = "clay_codes"
version = "0.1.0"
edition = "2021"
publish = false

[dependencies]
reed-solomon-erasure = "6.0"

[dev-dependencies]
rand = "0.8"
