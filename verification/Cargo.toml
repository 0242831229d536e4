[package]
name = "sparse_vec"
version = "0.1.0"
edition = "2021"
publish = false

[dependencies]
intersect_iter = "*"
num = "*"
num-traits = "*"
serde = { version = "*", features = ["derive"] }
