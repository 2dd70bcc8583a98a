[package]
name = "sprite_batch"
version = "0.1.0"
edition = "2021"
publish = false

[dependencies]
wgpu = "24"
winit = "0.30"
image = { version = "0.25", default-features = false, features = ["png"] }
ultraviolet = "0.9"
bytemuck = { version = "1", features = ["derive"] }
rand = "0.8"
futures = { version = "0.3", default-features = false, features = ["executor"] }
