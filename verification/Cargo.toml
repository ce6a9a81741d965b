[package]
name = "perfect_sequences"
version = "0.1.0"
edition = "2021"
publish = false

[dependencies]
itertools = "*"
