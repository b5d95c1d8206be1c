[package]
name = "backgammon_simd"
version = "0.1.0"
edition = "2021"
publish = false

[dependencies]
anyhow = "1"
backgammon = "*"
fixed-map = "*"
itertools = "*"
once_cell = "1"
rand = "0.8"
rand_distr = "0.4"
strum = "*"
strum_macros = "*"
