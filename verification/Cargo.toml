[package]
name = "bucket_map"
version = "0.1.0"
edition = "2021"
publish = false

[dependencies]
rand = "=0.7.3"
solana-measure = "=2.2.20"
solana-sdk = { version = "=2.2.2", default-features = false }
