[package]
name = "rocksbin"
version = "0.1.0"
edition = "2021"
publish = false

[dependencies]
bincode = "1.3"
rocksdb = "*"
serde = "1"

[dev-dependencies]
tempfile = "3"
