[package]
name = "optical-flow-lk"
version = "0.4.0"
edition = "2021"
publish = false

[dependencies]
image = { version = "0.25", default-features = false }
