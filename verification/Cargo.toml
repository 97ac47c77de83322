[package]
name = "shiba_jit"
version = "0.1.0"
edition = "2021"
publish = false

[dependencies]
petgraph = "*"
smallvec = "1"
dynasmrt = "*"
