[package]
name = "leviculum_lxmf"
version = "0.1.0"
edition = "2021"
publish = false

[dependencies]
rmp = "0.8"
sha2 = "0.10"

[dev-dependencies]
hex = "0.4"
