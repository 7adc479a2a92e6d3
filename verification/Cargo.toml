[package]
name = "rush"
version = "0.1.0"
edition = "2021"
publish = false

[dependencies]
nix = { version = "0.30", features = ["fs", "process", "signal", "term"] }
thiserror = "2"
