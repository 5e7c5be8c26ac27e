[package]
name = "fast_boolean_anf_transform"
version = "0.1.0"
edition = "2021"

[dependencies]
num-traits = "*"
