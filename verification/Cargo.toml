[package]
name = "torsh"
version = "0.1.0"
edition = "2021"
publish = false

[dependencies]
scirs2-core = { version = "=0.6.5", features = ["random"] }
