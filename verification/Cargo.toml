[package]
name = "pika"
version = "0.1.0"
edition = "2021"
publish = false

[dependencies]
mac_address = "*"
rand = "0.8"
