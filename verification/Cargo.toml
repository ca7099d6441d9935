[package]
name = "one2html"
version = "0.1.0"
edition = "2021"
publish = false

[dependencies]
onenote_parser = "0.3.1"
