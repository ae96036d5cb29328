[package]
name = "deep_space"
version = "0.1.0"
edition = "2021"
publish = false

[dependencies]
base64 = "=0.13.1"
num256 = "=0.6.0"
rust_decimal = "=1.43.0"
serde = "=1.0.229"
sha2 = "=0.10.9"
signatory = { version = "=0.27.1", features = ["secp256k1"] }
subtle-encoding = { version = "=0.5.1", features = ["bech32-preview"] }

[dev-dependencies]
serde_json = "=1.0.154"
