[package]
name = "rs_ec_perf"
version = "0.1.0"
edition = "2021"
publish = false

[dependencies]
itertools = "0.10"
reed-solomon-erasure = "4.0"

[dev-dependencies]
rand = "0.8"
