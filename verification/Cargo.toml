[package]
name = "rmath"
version = "0.1.0"
edition = "2021"
publish = false

[dependencies]
nalgebra = "*"
num-traits = "0.2"
plotly = "*"
serde = "1"
statrs = "*"
