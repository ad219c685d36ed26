[package]
name = "zktransformer"
version = "0.1.0"
edition = "2021"
publish = false

[dependencies]
ark-bn254 = "0.5"
ark-ec = "0.5"
ark-ff = "0.5"
ark-serialize = "0.5"
ark-std = "0.5"
ark-crypto-primitives = { version = "0.5", default-features = false, features = ["sponge"] }
env_logger = "0.11"
ndarray = "0.16"
rand = "0.8"
rayon = "1.10"
serde = { version = "1", features = ["derive"] }
