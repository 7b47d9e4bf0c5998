[package]
name = "save_format"
version = "0.1.0"
edition = "2021"
publish = false

[dependencies]
sti = "*"
glam = "*"
