[package]
name = "succinct_proofs"
version = "0.1.0"
edition = "2021"
publish = false

[dependencies]
ark-ff = "*"
ark-ec = "*"
ark-bls12-381 = "*"
sha3 = "*"
