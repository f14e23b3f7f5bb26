[package]
name = "fssearch"
version = "0.1.0"
edition = "2021"
publish = false

[dependencies]
globset = "*"
ignore = "*"
image = "*"
