[package]
name = "tccst"
version = "0.1.0"
edition = "2021"
publish = false

[dependencies]
rand = "=0.8.8"
walkdir = "=2.5.0"
shellexpand = "=3.1.2"
