[package]
name = "slang_preview"
version = "0.1.0"
edition = "2021"
publish = false

[dependencies]
rspirv = "*"
naga = { version = "*", features = ["spv-in"] }
wgpu = "*"
pollster = "*"
bytemuck = { version = "*", features = ["derive"] }
image = { version = "*", default-features = false, features = ["png", "jpeg"] }
tempfile = "*"
