[package]
name = "gpu_document"
version = "0.1.0"
edition = "2021"
publish = false

[dependencies]
bytemuck = { version = "1", features = ["derive"] }
log = "0.4"
pollster = "*"
wgpu = "*"
