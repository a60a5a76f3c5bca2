[package]
name = "nip19_profile"
version = "0.1.0"
edition = "2021"
publish = false

[dependencies]
bech32 = "0.11"
uniffi = "*"
