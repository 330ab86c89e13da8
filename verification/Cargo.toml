[package]
name = "kls"
version = "0.1.0"
edition = "2021"
publish = false

[dependencies]
chrono = "*"
colored = "*"
nix = { version = "*", features = ["fs", "user"] }
