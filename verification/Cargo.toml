[package]
name = "seglog"
version = "0.1.0"
edition = "2021"
publish = false

[dependencies]
rocksdb = "*"

[dev-dependencies]
tempfile = "*"
