[package]
name = "rustline"
version = "0.1.0"
edition = "2021"
publish = false

[dependencies]
unicode-width = "0.2"
nix = { version = "0.29", features = ["term", "signal", "poll", "user", "fs", "ioctl"] }
thiserror = "2"
dirs = "5"
