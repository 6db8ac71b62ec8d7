[package]
name = "limbo_engine"
version = "0.1.0"
edition = "2021"
publish = false

[dependencies]

[dev-dependencies]
rand_chacha = "0.3"
