[package]
name = "ibig"
version = "0.1.0"
edition = "2021"
publish = false

[dependencies]
ascii = "1"

[dev-dependencies]
rand = "0.8"
