[package]
name = "vibecheat"
version = "0.1.0"
edition = "2021"
publish = false

[dependencies]
roxmltree = "0.20"
libc = "0.2"
crossbeam-channel = "0.5"
