[package]
name = "injector"
version = "0.1.0"
edition = "2021"
publish = false

[dependencies]
multimap = { version = "0.10", default-features = false }
linkme = "0.3"
lazy_static = "1"
