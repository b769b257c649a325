[package]
name = "stark"
version = "0.1.0"
edition = "2021"
publish = false

[dependencies]
blake2 = "0.10"
sha3 = "0.10"
rand = "0.9"
