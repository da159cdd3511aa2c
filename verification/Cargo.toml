[package]
name = "medians"
version = "3.0.0"
edition = "2021"
publish = false

[dependencies]
indxvec = "*"

[dev-dependencies]
ran = "*"
