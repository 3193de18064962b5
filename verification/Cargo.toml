[package]
name = "nexus"
version = "0.1.0"
edition = "2021"
publish = false

[dependencies]
bs58 = "*"
chrono = "*"
colored = "*"
dirs = "*"
humantime = "*"
sha2 = "*"
signal-hook = "*"
toml = "*"
