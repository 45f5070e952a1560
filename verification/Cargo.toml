[package]
name = "terrashin"
version = "0.1.0"
edition = "2021"
publish = false

[dependencies]
wgpu = { version = "=30.0.1", features = ["noop"] }
winit = "=0.30.13"
glam = "=0.34.2"
pollster = "=0.4.0"
