[package]
name = "snapsign"
version = "0.1.0"
edition = "2021"
publish = false

[dependencies]
ethers-core = "2"
ethers-signers = "2"
serde_json = "1"

[dev-dependencies]
hex = "0.4"
