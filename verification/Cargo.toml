[package]
name = "sat_engine"
version = "0.1.0"
edition = "2021"
publish = false

[dependencies]
petgraph = "*"
rand = "0.8"
