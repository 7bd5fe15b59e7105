[package]
name = "ru_shell"
version = "0.1.0"
edition = "2021"
publish = false

[dependencies]
chrono = "*"
dirs = "*"
libc = "*"
rustyline = "*"
