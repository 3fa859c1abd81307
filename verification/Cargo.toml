[package]
name = "mpi_util"
version = "0.1.0"
edition = "2021"
publish = false

[dependencies]
libc = "=0.2.191"
mpi = "=0.6.0"
mpi-sys = "=0.2.4"
rayon = "1"
