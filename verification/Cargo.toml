[package]
name = "fuzzyrs"
version = "0.1.0"
edition = "2021"
publish = false

[dependencies]
crossbeam = "0.8"
rayon = "1"
walkdir = "2"
