[package]
name = "sprios"
version = "0.1.0"
edition = "2021"
publish = false

[dependencies]
rand = { version = "0.7", features = ["small_rng"] }
threadpool = "1"
num_cpus = "1"
getopts = "0.2"
