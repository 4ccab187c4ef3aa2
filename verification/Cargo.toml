[package]
name = "ht_dungeon_core"
version = "0.1.0"
edition = "2021"
publish = false

[dependencies]
rand = "=0.8.8"
rand_chacha = "=0.3.1"
serde = { version = "=1.0.229", features = ["derive"] }
toml = "=0.8.23"
crossbeam-channel = "=0.5.17"
winit = "=0.30.13"
wgpu = "=22.1.0"
egui = "=0.29.1"
egui-wgpu = "=0.29.1"
egui-winit = "=0.29.1"
pollster = "=0.3.0"
env_logger = "=0.11.11"
log = "=0.4.35"
bytemuck = { version = "=1.25.2", features = ["derive"] }
image = { version = "=0.25.10", default-features = false, features = ["png"] }
