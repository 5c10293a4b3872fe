[package]
name = "blockchain_core"
version = "0.1.0"
edition = "2021"
publish = false

[dependencies]
sha2 = "0.10"
bincode = "1.3"
rust-crypto = "0.2.36"
bitcoincash-addr = "0.5"
merkle-cbt = "*"
rand = "0.8"
serde = { version = "1", features = ["derive"] }
sled = "0.34"
clap = "4"
anyhow = "1"
log = "0.4"
