[package]
name = "noisy_bootstrap"
version = "0.1.0"
edition = "2021"
publish = false

[dependencies]
itertools = "0.12"
num-traits = "0.2"
rand = "0.8"
rand_distr = "0.4"
