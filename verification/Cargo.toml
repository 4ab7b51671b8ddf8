[package]
name = "horcrux_split"
version = "0.1.0"
edition = "2021"
publish = false

[dependencies]
chacha20poly1305 = { version = "=0.10.1", features = ["stream"] }
rand = "=0.8.8"
sharks = "=0.5.0"
