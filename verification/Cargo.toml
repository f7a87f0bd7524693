[package]
name = "ggblas"
version = "0.1.0"
edition = "2021"
publish = false

[dependencies]
half = "*"
threadpool = "*"
num_cpus = "*"
core_affinity = "*"
matrixmultiply = "*"
cblas-sys = "*"
libc = "*"
