[package]
name = "aoc25"
version = "0.1.0"
edition = "2021"
publish = false

[dependencies]
anyhow = "1"
glam = "*"
itertools = "*"
microlp = "*"
num-traits = "0.2"
rand = "0.9"
yansi = "1"
