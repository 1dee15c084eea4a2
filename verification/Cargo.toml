[package]
name = "crypto_primitives"
version = "0.1.0"
edition = "2021"
publish = false

[dependencies]
ark-ec = "0.3"
ark-ff = { version = "0.3", features = ["std"] }
ark-std = { version = "0.3", features = ["std"] }
ark-serialize = "0.3"
ark-ed-on-bls12-381 = "0.3"
blake2 = "0.9"
digest = "0.9"
