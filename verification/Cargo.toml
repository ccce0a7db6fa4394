[package]
name = "fj_math"
version = "0.1.0"
edition = "2021"
publish = false

[dependencies]
approx = "*"
bytemuck = "*"
glam = "*"
parry3d-f64 = "*"
robust = "*"
wgpu = "*"
