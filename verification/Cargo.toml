[package]
name = "eve_logs"
version = "0.1.0"
edition = "2021"
publish = false

[dependencies]
dirs = "*"
