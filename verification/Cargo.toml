[package]
name = "vfsx"
version = "0.1.0"
edition = "2021"
publish = false

[dependencies]
notify = "*"
crossbeam-channel = "*"
salsa = "0.16"
tracing = "*"
tracing-subscriber = "*"

[dev-dependencies]
tempfile = "*"
