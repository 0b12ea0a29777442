[package]
name = "unifat"
version = "0.1.0"
edition = "2021"
publish = false

[dependencies]
time = { version = "=0.3.55", default-features = false }
embedded-io = "=0.7.1"
