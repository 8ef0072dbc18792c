[package]
name = "lrc_rs"
version = "0.1.0"
edition = "2021"
publish = false

[dependencies]
nom = "8"
log = "0.4"
