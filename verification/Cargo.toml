[package]
name = "content_scan"
version = "0.1.0"
edition = "2021"
publish = false

[dependencies]
varmap = "=0.1.6"
filecache = { version = "=0.1.1", features = ["mmap"] }
zip = "=9.2.2"
