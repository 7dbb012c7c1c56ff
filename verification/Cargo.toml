[package]
name = "apdex"
version = "0.1.0"
edition = "2021"
publish = false

[dependencies]
yansi = "0.4"
