[package]
name = "nftp"
version = "0.1.0"
edition = "2021"
publish = false

[dependencies]
near-sdk = { version = "4.1", default-features = false }
anchor-lang = "0.29"
