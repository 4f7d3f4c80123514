[package]
name = "gemini"
version = "0.1.0"
edition = "2021"
publish = false

[dependencies]
nalgebra = "0.18"
petgraph = "0.4"
rand = "0.4"
spade = "1"
statrs = "0.9"
