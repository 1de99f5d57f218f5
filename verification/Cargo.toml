[package]
name = "oktz-signal"
version = "0.2.0"
edition = "2021"
publish = false

[dependencies]
aes = "0.8"
base64 = "0.22"
curve25519-dalek = "4.1"
ed25519-dalek = "2"
hmac = "0.12"
napi = { version = "2", default-features = false, features = ["napi4"] }
napi-derive = "2"
rand = "0.8"
serde = { version = "1", features = ["derive"] }
serde_json = "1"
sha2 = "0.10"
