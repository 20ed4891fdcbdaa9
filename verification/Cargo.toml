[package]
name = "kcacheext"
version = "0.1.0"
edition = "2021"
publish = false

[dependencies]
anyhow = "*"
bytesize = "*"
clap = "*"
goblin = "*"
lzfse = "*"
