[package]
name = "swipe_rs"
version = "0.1.0"
edition = "2021"
publish = false

[dependencies]
realfft = "3"
hound = "3"
