[package]
name = "iron"
version = "0.1.0"
edition = "2021"
publish = false

[dependencies]
rand = "=0.10.3"
bytemuck = "=1.25.2"
dirs = "=7.0.0"
glow = "=0.18.0"
glutin = "=0.32.3"
glutin-winit = "=0.5.0"
rusttype = { version = "=0.9.3", features = ["gpu_cache"] }
serde = { version = "=1.0.229", features = ["derive"] }
toml = "=1.1.7"
winit = "=0.30.13"
