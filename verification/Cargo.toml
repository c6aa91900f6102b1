[package]
name = "esvc"
version = "0.1.0"
edition = "2021"
publish = false

[dependencies]
base64 = "=0.13.1"
blake2 = "=0.10.6"
