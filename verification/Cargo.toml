[package]
name = "wordgen"
version = "0.1.0"
edition = "2021"
publish = false

[dependencies]
clap = { version = "4", features = ["derive"] }
itertools = "0.13"
rayon = "1"
regex-syntax = "0.8"
