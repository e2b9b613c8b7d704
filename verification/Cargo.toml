[package]
name = "cfront"
version = "0.1.0"
edition = "2021"
publish = false

[dependencies]
lang-c = "0.10"
log = "0.4"
