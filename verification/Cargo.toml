[package]
name = "ciphers"
version = "0.1.0"
edition = "2021"
publish = false

[dependencies]
rand = "*"
inquire = "*"
inquire-derive = "*"
log = "*"
fern = "*"
colored = "*"
terminal = "*"
