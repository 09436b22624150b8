[package]
name = "rust_common_lib"
version = "0.1.0"
edition = "2021"
publish = false

[dependencies]
alloy-primitives = { version = "*", default-features = false, features = ["std", "rlp"] }
alloy-rlp = "*"
im = "15"
quick_cache = "*"
rayon = "1"
