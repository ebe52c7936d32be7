[package]
name = "crowdfund"
version = "0.1.0"
edition = "2021"
publish = false

[dependencies]
cosmwasm-std = "1"
cw-utils = "1"
cw2 = "1"
cw721 = "0.18"
semver = "1"
serde = { version = "1", features = ["derive"] }
