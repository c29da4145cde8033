[package]
name = "rmux"
version = "0.1.0"
edition = "2021"
publish = false

[dependencies]
crossterm = "0.29"
libghostty-vt = "*"
nix = { version = "0.30", features = ["fs", "poll", "process", "signal", "term"] }
