[package]
name = "secret_silo"
version = "0.1.0"
edition = "2021"
publish = false

[dependencies]
chacha20poly1305 = "0.10"
sharks = "0.5"
rand = "0.8"
