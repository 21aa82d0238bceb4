[package]
name = "huff_rs"
version = "0.1.0"
edition = "2021"
publish = false

[dependencies]
bitvec = "1"
counter = "0.5"

[dev-dependencies]
quickcheck = { version = "1", default-features = false }
