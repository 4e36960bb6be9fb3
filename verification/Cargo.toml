[package]
name = "splicer"
version = "0.1.0"
edition = "2021"
publish = false

[dependencies]
wit-bindgen = "*"
wit-parser = "0.247"
