[package]
name = "purewave"
version = "0.1.0"
edition = "2021"
publish = false

[dependencies]
alsa-sys = "*"
jack-sys = "*"
