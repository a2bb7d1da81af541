[package]
name = "numbat"
version = "0.1.0"
edition = "2021"
publish = false

[dependencies]
time = "*"
libc = "*"

[dev-dependencies]
serde_json = "*"
