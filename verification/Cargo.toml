[package]
name = "prism_core"
version = "0.1.0"
edition = "2021"
publish = false

[dependencies]
chacha20poly1305 = "0.10"
qoi = "0.4"
image = { version = "0.25", default-features = false, features = ["png"] }
