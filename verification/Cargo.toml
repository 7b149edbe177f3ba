[package]
name = "p2p2"
version = "0.1.0"
edition = "2021"
publish = false

[dependencies]
hash_map_diff = "*"
stable-vec = "*"
tokio = { version = "1", default-features = false, features = ["sync"] }
