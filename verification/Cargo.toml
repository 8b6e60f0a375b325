[package]
name = "kitsune_ui"
version = "0.1.0"
edition = "2021"
publish = false

[dependencies]
ab_glyph = "0.2"
bytemuck = { version = "1", features = ["derive"] }
thiserror = "1"
wgpu = "0.16"
winit = "0.28"
