[package]
name = "tiles"
version = "0.1.0"
edition = "2021"
publish = false

[dependencies]
binary-heap-plus = "*"
compare = "*"
lazy_static = "*"
