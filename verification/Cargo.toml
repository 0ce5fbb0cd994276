[package]
name = "pencil_decomp"
version = "0.1.0"
edition = "2021"
publish = false

[dependencies]
mpi = "*"
ndarray = "*"
num-traits = "*"
