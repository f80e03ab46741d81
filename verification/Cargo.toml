[package]
name = "oner_quantize"
version = "0.1.0"
edition = "2021"
publish = false

[dependencies]
ord_subset = "*"
