[package]
name = "rustmp"
version = "0.1.0"
edition = "2021"
publish = false

[dependencies]
rayon = "*"
hwloc2 = "*"
lazy_static = "*"
