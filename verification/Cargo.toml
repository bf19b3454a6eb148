[package]
name = "pimgext"
version = "0.1.0"
edition = "2021"
publish = false

[dependencies]
libz-sys = "1"
