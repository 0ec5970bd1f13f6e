[package]
name = "shellcp"
version = "0.1.0"
edition = "2021"
publish = false

[dependencies]
regex = "*"
colored = "*"
crossterm = "*"
ctrlc = "*"
filetime = "*"
indicatif = "*"
nix = { version = "*", features = ["fs", "user"] }
