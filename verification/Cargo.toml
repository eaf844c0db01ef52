[package]
name = "puzzle_solvers"
version = "0.1.0"
edition = "2021"
publish = false

[dependencies]
nalgebra = "0.33"
petgraph = "0.6"
radix_trie = "0.2"
regex = "1"
rustc-hash = "2"
z3 = "0.12"
