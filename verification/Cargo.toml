[package]
name = "banzai"
version = "0.3.0"
edition = "2021"
publish = false

[dev-dependencies]
bzip2 = "*"
xxhash-rust = { version = "*", features = ["xxh3"] }
