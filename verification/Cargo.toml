[package]
name = "builder"
version = "0.1.0"
edition = "2021"
publish = false

[dependencies]
markdown = "=1.0.0"
chrono = "=0.4.45"
anyhow = "=1.0.104"
regex-syntax = "*"
