[package]
name = "zwc"
version = "0.1.0"
edition = "2021"
publish = false

[dependencies]
brotli = "=9.0.0"
chacha20 = { version = "=0.10.2", features = ["rng"] }
chacha20poly1305 = "=0.11.0"
getrandom = "=0.4.3"
poly1305 = "=0.9.1"
structopt = "=0.3.26"
