[package]
name = "quickhull"
version = "0.1.0"
edition = "2021"
publish = false

[dependencies]
anyhow = "1"
nalgebra = "0.32"
rand = "0.8"
