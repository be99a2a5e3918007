[package]
name = "rust_blockchain"
version = "0.1.0"
edition = "2021"
publish = false

[dependencies]
sha2 = "*"
