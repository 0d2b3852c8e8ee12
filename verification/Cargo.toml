[package]
name = "matrixmult"
version = "0.1.0"
edition = "2021"
publish = false

[dependencies]
clap = { version = "*", features = ["derive"] }
core_affinity = "*"
crossbeam = "*"
rand = "*"
rayon = "*"
