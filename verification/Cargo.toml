[package]
name = "wgpu_rust_renderer"
version = "0.1.0"
edition = "2021"
publish = false

[dependencies]
num-traits = "0.2"
gltf = { version = "0.16", default-features = false }
wgpu = "0.10"
winit = "0.25"
