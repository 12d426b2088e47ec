[package]
name = "whir"
version = "0.1.0"
edition = "2021"
publish = false

[dependencies]
ark-crypto-primitives = { version = "=0.5.0", features = ["merkle_tree"] }
ark-serialize = "=0.5.0"
serde = { version = "=1.0.229", features = ["derive"] }
