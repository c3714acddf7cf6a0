[package]
name = "mass_incarceration_analysis"
version = "0.1.0"
edition = "2021"
publish = false

[dependencies]
csv = "1"
serde = { version = "1", features = ["derive"] }
petgraph = "*"
plotters = "0.3"
nalgebra = "*"
statrs = "*"
