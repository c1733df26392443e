[package]
name = "gcoms_node"
version = "0.1.0"
edition = "2021"
publish = false

[dependencies]
aes-gcm = "0.10"
hkdf = "0.12"
rand = "0.8"
serde = { version = "1", features = ["derive"] }
serde_json = "1"
sha2 = "0.10"
tokio = { version = "1", features = ["rt", "sync", "time", "macros"] }
url = "2"
x25519-dalek = { version = "2", features = ["static_secrets"] }
zeroize = "1"
