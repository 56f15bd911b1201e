[package]
name = "slidy"
version = "0.1.0"
edition = "2021"
publish = false

[dependencies]
rand = "0.9"
palette = "0.7"
svg = "*"
enterpolation = "*"
