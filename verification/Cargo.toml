[package]
name = "large_nbt_fixer"
version = "1.0.0"
edition = "2021"
publish = false

[dependencies]
anyhow = "1"
byteorder = "1"
clap = "2"
flate2 = "1"
