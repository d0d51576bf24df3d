[package]
name = "polars_exec"
version = "0.1.0"
edition = "2021"
publish = false

[dependencies]
ahash = "*"
itertools = "*"
rayon = "*"
fast-float = "*"
