[package]
name = "webm_ebml"
version = "0.1.0"
edition = "2021"
publish = false

[dependencies]
json = "0.12"
byteorder = "1"
