[package]
name = "gridpath"
version = "0.1.0"
edition = "2021"
publish = false

[dependencies]
indicatif = "*"
itertools = "*"
miette = "*"
rayon = "*"
regex = "*"
tracing = "*"
tracing-subscriber = "*"
