[package]
name = "hexworld"
version = "0.1.0"
edition = "2021"
publish = false

[dependencies]
itertools = "0.10"
noise = { version = "0.8", default-features = false }
