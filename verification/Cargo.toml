[package]
name = "bempp"
version = "0.1.0"
edition = "2021"
publish = false

[dependencies]
green-kernels = { version = "=0.2.2", default-features = false }
itertools = "=0.15.0"
mpi = "=0.8.2"
ndelement = "=0.3.0"
ndgrid = "=0.4.0"
num = "=0.4.3"
rayon = "=1.12.0"
rlst = { version = "=0.2.1", default-features = false }
