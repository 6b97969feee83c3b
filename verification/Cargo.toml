[package]
name = "dns_proto"
version = "0.1.0"
edition = "2021"
publish = false

[dependencies]
rand = "0.8"
once_cell = "1"
critical-section = { version = "1", features = ["std"] }
