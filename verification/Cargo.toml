[package]
name = "bibtex_parser"
version = "0.1.0"
edition = "2021"
publish = false

[dependencies]
ahash = "0.8"
memchr = "2"
rayon = "1"
thiserror = "1"
winnow = "0.6"
