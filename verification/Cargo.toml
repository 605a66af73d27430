[package]
name = "rand_functors"
version = "0.1.0"
edition = "2021"
publish = false

[dependencies]
num = "0.4"
rand = "0.9"

[dev-dependencies]
ahash = "0.8"
rand_chacha = "0.9"
