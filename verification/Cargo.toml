[package]
name = "kangputus"
version = "8.0.0"
edition = "2021"
publish = false

[dependencies]
ahash = "0.8"
ark-ec = "0.4"
ark-ff = "0.4"
ark-secp256k1 = "0.4"
bs58 = "0.5"
clap = { version = "4", features = ["derive"] }
crc32fast = "1"
crossbeam-channel = "0.5"
ctrlc = "3"
hashbrown = "0.14"
hex = "0.4"
mimalloc = "0.1"
rand = "0.8"
rand_xoshiro = "0.6"
ripemd = "0.1"
serde = { version = "1", features = ["derive"] }
serde_json = "1"
sha2 = "0.10"
