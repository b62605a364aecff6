[package]
name = "frizbee"
version = "0.1.0"
edition = "2021"
publish = false

[dependencies]
itertools = "0.14"

[dev-dependencies]
proptest = "1"
