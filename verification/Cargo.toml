[package]
name = "dnss"
version = "0.1.0"
edition = "2021"
publish = false

[dependencies]
native-tls = "0.2"
