[package]
name = "media_types"
version = "0.1.0"
edition = "2021"
publish = false

[dependencies]
charsets = "=0.1.1"
