[package]
name = "kvs"
version = "0.1.0"
edition = "2021"
publish = false

[dependencies]
sled = "0.34"
clap = "*"

[dev-dependencies]
serde_json = "1"
