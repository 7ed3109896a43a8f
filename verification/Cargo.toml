[package]
name = "convrs"
version = "0.1.0"
edition = "2021"
publish = false

[dependencies]
realfft = "3"
rtrb = "0.3"
hound = "3"
num = "0.4"
