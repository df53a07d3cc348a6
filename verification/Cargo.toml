[package]
name = "kora_core"
version = "0.1.0"
edition = "2021"
publish = false

[dependencies]
ahash = "0.7"
sha3 = "0.9"
curve25519-dalek = "3"
polynomial-over-finite-prime-field = "*"
modinverse = "0.1"
rand = "0.8"
getrandom = "0.2"
bincode = "1.3"
serde = { version = "1", features = ["derive"] }
