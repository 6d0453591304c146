[package]
name = "stitch"
version = "0.1.0"
edition = "2021"
publish = false

[dependencies]
egg = "0.10"
rand = "0.9"
rustc-hash = "2"
serde_json = "1"
