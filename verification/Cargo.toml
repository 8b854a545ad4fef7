[package]
name = "advent_25"
version = "0.1.0"
edition = "2021"
publish = false

[dependencies]
rayon = "1"
pprof = { version = "0.15", features = ["flamegraph"] }
