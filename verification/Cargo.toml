[package]
name = "minskk"
version = "0.1.0"
edition = "2021"
publish = false

[dependencies]
flate2 = "*"
encoding_rs = "*"
libc = "*"
once_cell = "*"
shellexpand = "*"
