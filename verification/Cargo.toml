[package]
name = "mnemonic_practice"
version = "0.1.0"
edition = "2021"
publish = false

[dependencies]
csv = "*"
rand = "*"
colored = "*"
crossterm = "*"
