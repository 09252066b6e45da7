[package]
name = "ferroterm"
version = "0.1.0"
edition = "2021"
publish = false

[dependencies]
portable-pty = "=0.9.0"
png = "0.17"
fontdue = "0.9"
ttf-parser = "*"
