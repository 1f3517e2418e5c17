[package]
name = "procmem"
version = "0.1.0"
edition = "2021"
publish = false

[dependencies]
nix = { version = "0.31.3", default-features = false, features = ["uio", "process"] }
