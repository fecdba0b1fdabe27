[package]
name = "vaultblob"
version = "0.1.0"
edition = "2021"
publish = false

[dependencies]
anyhow = "1"
argon2 = "0.5"
blake2 = "0.10"
chacha20 = "0.9"
chacha20poly1305 = "0.10"
clap = { version = "4", features = ["derive"] }
glob = "0.3"
hex = "0.4"
hkdf = "0.12"
libc = "0.2"
pyo3 = { version = "0.27", features = ["abi3-py38"] }
rand = "0.10"
sha2 = "0.10"
