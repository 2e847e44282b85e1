[package]
name = "linera_lite"
version = "0.1.0"
edition = "2021"
publish = false

[dependencies]
bcs = "0.1"
hex = "0.4"
log = "0.4"
serde_json = "1"
sha2 = "0.10"
sha3 = "0.10"
