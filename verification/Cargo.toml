[package]
name = "iptrie"
version = "0.1.0"
edition = "2021"
publish = false

[dependencies]
ipnet = "2"

[dev-dependencies]
rand = "0.8"
