[package]
name = "macc_lib"
version = "0.1.0"
edition = "2021"
publish = false

[dependencies]
bitcoin_hashes = "=1.2.0"
bs58 = "=0.5.1"
secp256k1 = { version = "=0.33.1", features = ["rand", "std"] }
rand = "=0.10.3"
serde = { version = "=1.0.229", features = ["derive"] }
serde_json = "=1.0.151"
bincode = "=1.3.3"
clap = { version = "=4.6.7", features = ["derive"] }
log = "=0.4.34"
