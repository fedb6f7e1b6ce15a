[package]
name = "octree"
version = "0.1.0"
edition = "2021"
publish = false

[dependencies]
glam = "*"
num-traits = "0.2"

[dev-dependencies]
rand = "0.8"
