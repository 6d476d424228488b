[package]
name = "darwin_notify"
version = "0.1.0"
edition = "2021"
publish = false

[dependencies]
block = "*"
tracing = "*"
