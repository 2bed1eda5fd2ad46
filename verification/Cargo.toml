[package]
name = "alpha_zero"
version = "0.1.0"
edition = "2021"
publish = false

[dependencies]
atomic_float = "*"
bitvec = "*"
mcts = "*"
parking_lot = "*"
rand = "0.8"
rayon = "*"
tensorflow = "*"
