[package]
name = "colorglyph"
version = "0.1.0"
edition = "2021"
publish = false

[dependencies]
soroban-sdk = "*"
soroban-fixed-point-math = "1.5.0"

[dev-dependencies]
soroban-sdk = { version = "*", features = ["testutils"] }
