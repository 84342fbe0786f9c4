[package]
name = "resid"
version = "0.1.0"
edition = "2021"
publish = false

[dependencies]
slotmap = "1"
sha2 = "0.10"
ed25519-dalek = "2"
chacha20poly1305 = "0.10"
getrandom = "0.2"
serde = { version = "1", features = ["derive"] }
toml = "0.8"
