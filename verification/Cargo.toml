[package]
name = "sw_core"
version = "0.1.0"
edition = "2021"
publish = false

[dependencies]
ahash = "0.8"
noise = "0.8"
