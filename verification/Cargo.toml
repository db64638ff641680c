[package]
name = "verkle_stateless"
version = "0.1.0"
edition = "2021"
publish = false

[dependencies]
ark-ed-on-bls12-381-bandersnatch = "=0.6.0"
ark-ff = "=0.6.0"
ark-ec = "=0.6.0"
ark-serialize = "=0.6.0"
ark-std = "=0.6.0"
hex = "=0.4.3"
serde = { version = "1", features = ["derive"] }
