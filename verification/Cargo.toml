[package]
name = "xarxa"
version = "0.1.0"
edition = "2021"
publish = false

[dependencies]
managed = "0.8"
