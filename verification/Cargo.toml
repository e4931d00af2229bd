[package]
name = "orion"
version = "0.1.0"
edition = "2021"
publish = false

[dependencies]
glam = "0.30"
ndshape = "0.3"
bytemuck = "1"
