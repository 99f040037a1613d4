[package]
name = "prime_coverage"
version = "0.1.0"
edition = "2021"
publish = false

[dependencies]
num-bigint = "*"
num-prime = "*"
num-traits = "*"
primal = "*"
rayon = "*"
