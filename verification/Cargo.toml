[package]
name = "kiss-cache"
version = "0.1.0"
edition = "2021"
publish = false

[dependencies]
lexopt = "0.3"
rustc-hash = "2"
walkdir = "2"
