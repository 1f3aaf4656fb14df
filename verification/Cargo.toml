[package]
name = "rendology"
version = "0.1.0"
edition = "2021"
publish = false

[dependencies]
glium = "0.25"
log = "0.4"
nalgebra = "0.18"
num-traits = "0.2"
