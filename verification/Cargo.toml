[package]
name = "batch_encryption"
version = "0.1.0"
edition = "2021"
publish = false

[dependencies]
ark-bls12-381 = "0.5"
ark-ec = "0.5"
ark-ff = "0.5"
ark-poly = "0.5"
ark-serialize = "0.5"
ark-std = { version = "0.5", features = ["std"] }
sha2 = "0.10"
aes-gcm = "0.10"
bincode = "1"
serde = { version = "1", features = ["derive"] }
wasm-bindgen = "0.2"
