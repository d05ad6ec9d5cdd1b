[package]
name = "rtk"
version = "0.1.0"
edition = "2021"
publish = false

[dependencies]
anyhow = "1"
dirs = "5"
regex = "1"
serde_json = "1"
walkdir = "2"

[dev-dependencies]
tempfile = "3"
