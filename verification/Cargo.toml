[package]
name = "fastpt"
version = "0.1.0"
edition = "2021"
publish = false

[dependencies]
libipt = "*"
memmap2 = "*"
