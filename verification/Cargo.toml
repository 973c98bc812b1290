[package]
name = "run-make-support"
version = "0.1.0"
edition = "2021"
publish = false

[dependencies]
regex = "1"
ar = "0.9"
