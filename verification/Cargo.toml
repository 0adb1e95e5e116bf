[package]
name = "stegostl"
version = "0.1.0"
edition = "2021"
publish = false

[dependencies]
bitstream-io = "1"
rand = "0.8"
stl = "*"
clap = "4"
