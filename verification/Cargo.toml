[package]
name = "aiff2mp3"
version = "0.1.0"
edition = "2021"
publish = false

[dependencies]
aifc = "*"
mp3lame-encoder = "*"
