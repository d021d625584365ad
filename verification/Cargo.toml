[package]
name = "rust_challenges"
version = "0.1.0"
edition = "2021"

[dependencies]
itertools = "*"
