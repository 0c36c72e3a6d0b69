[package]
name = "topogen"
version = "0.1.0"
edition = "2021"
publish = false

[dependencies]
bit-vec = "*"
rand = "0.8"
threadpool = "*"
petgraph = "*"

[dev-dependencies]
graph_builder = "*"
