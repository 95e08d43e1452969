[package]
name = "render_graph"
version = "0.1.0"
edition = "2021"
publish = false

[dependencies]
slotmap = "1"
wgpu = "*"
winit = "0.30"
bytemuck = "1"
pollster = "*"
