[package]
name = "tree_dists"
version = "0.1.0"
edition = "2021"
publish = false

[dependencies]
clap = { version = "*", features = ["derive"] }
flate2 = "*"
phylotree = "*"
rayon = "*"

[dev-dependencies]
itertools = "*"
