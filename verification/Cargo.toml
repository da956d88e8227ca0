[package]
name = "haph"
version = "0.1.0"
edition = "2021"
publish = false

[dependencies]
foldhash = "0.1"
num-traits = "0.2"
rand = "0.8"
usize_cast = "*"
