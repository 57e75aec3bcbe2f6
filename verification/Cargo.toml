[package]
name = "mmo_stream"
version = "0.1.0"
edition = "2021"
publish = false

[dependencies]
bytemuck = { version = "1", features = ["derive"] }
pollster = "0.3"
rand = "0.8"
rayon = "1"
wgpu = { version = "0.19", default-features = false, features = ["wgsl"] }
