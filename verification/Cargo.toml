[package]
name = "pathtrace"
version = "0.1.0"
edition = "2021"
publish = false

[dependencies]
crossbeam = "=0.8.5"
fastrand = "=1.9.0"
image = { version = "0.23", default-features = false }
nannou = { version = "=0.18.1", default-features = false }
num_cpus = "=1.17.0"
rayon = "=1.12.0"
