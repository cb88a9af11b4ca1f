[package]
name = "region_quadtree"
version = "0.1.0"
edition = "2021"
publish = false

[dependencies]
env_logger = "0.10"
image = "0.24"
piston_window = "0.127"
winit = "0.29"
