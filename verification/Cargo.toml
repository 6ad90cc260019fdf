[package]
name = "gkr_engine"
version = "0.1.0"
edition = "2021"
publish = false

[dependencies]
mpi = "*"
