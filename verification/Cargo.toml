[package]
name = "shua_codec"
version = "0.1.0"
edition = "2021"
publish = false

[dependencies]
bitvec = "1"
serde = { version = "1", features = ["derive"] }
serde_json = "1"
rmp-serde = "1"
