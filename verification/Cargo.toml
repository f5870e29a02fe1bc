[package]
name = "deep_sea"
version = "0.1.0"
edition = "2021"
publish = false

[dependencies]
rand = "*"
