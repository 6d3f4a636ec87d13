[package]
name = "multip"
version = "0.1.0"
edition = "2021"
publish = false

[dependencies]
memchr = "*"
libc = "*"
nix = { version = "*", features = ["signal", "process"] }
