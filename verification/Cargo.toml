[package]
name = "detsim"
version = "0.1.0"
edition = "2021"
publish = false

[dependencies]
itertools = "0.13"
rand = "0.8"
rand_chacha = "0.3"
rand_distr = "0.4"
