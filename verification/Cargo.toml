[package]
name = "sigcheck"
version = "0.1.0"
edition = "2021"
publish = false

[dependencies]
enum-iterator = "2"
