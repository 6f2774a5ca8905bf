[package]
name = "aarnn-nsys"
version = "0.1.9"
edition = "2021"
publish = false

[dependencies]
libc = "0.2"
