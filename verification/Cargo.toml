[package]
name = "advent24"
version = "0.1.0"
edition = "2021"
publish = false

[dependencies]
pathfinding = "*"
min-max-heap = "*"
clap = { version = "*", features = ["derive"] }
