[package]
name = "stuffer_shack"
version = "0.1.0"
edition = "2021"
publish = false

[dependencies]
memmap = "*"
