[package]
name = "rinha_rust_tree"
version = "0.1.0"
edition = "2021"
publish = false

[dependencies]
flate2 = "1"
libc = "0.2"
mimalloc = "0.1"
serde = { version = "1", features = ["derive"] }
serde_json = "1"
