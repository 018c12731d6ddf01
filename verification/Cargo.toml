[package]
name = "dawn"
version = "0.1.0"
edition = "2021"
publish = false

[dependencies]
ic_bls12_381 = { version = "=0.10.1", features = ["experimental"] }
chacha20poly1305 = "=0.11.0"
sha2 = "=0.10.9"
rand = "=0.8.8"
alloy-primitives = { version = "=1.7.3", features = ["k256"] }
serde = { version = "=1.0.229", features = ["derive"] }
serde_cbor = "=0.11.2"
serde_json = "=1.0.151"

[dev-dependencies]
k256 = { version = "=0.13.4", features = ["ecdsa"] }
