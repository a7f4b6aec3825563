[package]
name = "rabin_crypto"
version = "0.1.0"
edition = "2021"
publish = false

[dependencies]
num-bigint = "0.4"
num-prime = "0.4"
num-traits = "0.2"
rand = "0.8"
sha2 = "0.10"
