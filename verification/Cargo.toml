[package]
name = "scheme_interp"
version = "0.1.0"
edition = "2021"
publish = false

[dependencies]
im = "15"
generational-arena = "0.2"
