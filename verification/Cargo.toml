[package]
name = "disk_pie"
version = "0.1.0"
edition = "2021"
publish = false

[dependencies]
speedy2d = "*"
winapi = { version = "0.3", features = ["fileapi"] }
