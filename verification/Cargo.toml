[package]
name = "vas_reach"
version = "0.1.0"
edition = "2021"
publish = false

[dependencies]
itertools = "0.14"
rand = "0.9"
clap = "4"
colored = "3"
z3 = "0.12"
