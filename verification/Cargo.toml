[package]
name = "mellos"
version = "0.1.0"
edition = "2021"
publish = false

[dependencies]
limine = "*"
x86_64 = "*"
