[package]
name = "kiddo"
version = "0.2.4"
edition = "2021"
publish = false

[dependencies]
num-traits = "0.2"

[dev-dependencies]
rand = "0.8"
