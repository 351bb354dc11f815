[package]
name = "assignments"
version = "0.1.0"
edition = "2021"
publish = false

[dependencies]
anyhow = "1"
clap = "2"
csv = "1"

[dev-dependencies]
pathfinding = "*"
