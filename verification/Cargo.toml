[package]
name = "game_of_life"
version = "0.1.0"
edition = "2021"
publish = false

[dependencies]
rand = "0.8"
num_cpus = "1"
crossbeam = "0.8"
crossterm = "0.27"
rayon = "1"
