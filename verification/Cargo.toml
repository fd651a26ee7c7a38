[package]
name = "oast"
version = "0.1.0"
edition = "2021"
publish = false

[dependencies]
itertools-num = "0.1"
rand = "0.8"
rayon = "1"
