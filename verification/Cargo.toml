[package]
name = "dmto_ecash"
version = "0.1.0"
edition = "2021"
publish = false

[dependencies]
dashmap = "6"
rand = "0.8"
secp256k1 = { version = "0.29", features = ["rand"] }
sha2 = "0.10"
