[package]
name = "merkledir"
version = "0.1.0"
edition = "2021"
publish = false

[dependencies]
sha2 = "0.10"
hex = "0.4"
ignore = "0.4"
rayon = "1"
