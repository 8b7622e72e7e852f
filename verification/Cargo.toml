[package]
name = "lostcoast"
version = "0.1.0"
edition = "2021"
publish = false

[dependencies]
anyhow = "1"
ash = "0.38"
ash-window = "0.13"
bytemuck = { version = "1", features = ["derive"] }
clap = { version = "4", features = ["derive"] }
egui = "0.29"
egui-ash-renderer = { version = "0.6", features = ["dynamic-rendering"] }
egui-winit = { version = "0.29", default-features = false, features = ["wayland", "x11"] }
glam = "0.29"
image = { version = "0.25", default-features = false, features = ["png"] }
raw-window-handle = "0.6"
serde = { version = "1", features = ["derive"] }
serde_json = "1"
toml = "0.8"
tracing = "0.1"
tracing-subscriber = "0.3"
winit = "0.30"
