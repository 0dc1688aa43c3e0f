[package]
name = "matrix_benchmark"
version = "0.1.0"
edition = "2021"
publish = false

[dependencies]
rand = "*"
core_affinity = "*"
getopts = "*"
