[package]
name = "kat_reduce"
version = "0.1.0"
edition = "2021"
publish = false

[dependencies]
egg = "*"
