[package]
name = "kecs"
version = "0.1.0"
edition = "2021"
publish = false

[dependencies]
petgraph = "*"
rayon = "*"
crossbeam = "*"

[dev-dependencies]
rand = "0.8"
