[package]
name = "nft_staking"
version = "0.1.0"
edition = "2021"
publish = false

[dependencies]
near-sdk = { version = "=5.30.0", features = ["non-contract-usage"] }
serde = { version = "=1.0.229", features = ["derive"] }
serde_json = "=1.0.154"
borsh = { version = "=1.8.1", features = ["derive"] }
