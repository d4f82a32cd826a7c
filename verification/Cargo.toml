[package]
name = "pathfinding_dev"
version = "0.1.0"
edition = "2021"
publish = false

[dependencies]
petgraph = "0.6"
uuid = { version = "1", features = ["v4"] }
geo = "0.28"
rstar = "0.12"
serde_json = "1"
flate2 = "1"
rayon = "1"
