[package]
name = "wgpu_robotic_simulator"
version = "0.1.0"
edition = "2021"
publish = false

[dependencies]
bytemuck = { version = "1", features = ["derive"] }
futures = "0.3"
image = { version = "0.25", default-features = false, features = ["png"] }
itertools = "0.13"
nalgebra-glm = "0.19"
