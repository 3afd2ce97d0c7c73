[package]
name = "parser"
version = "0.1.0"
edition = "2021"
publish = false

[dependencies]
env_logger = "0.7"
font-kit = "0.10"
gfx-auxil = "0.5"
gfx-backend-empty = "0.6"
gfx-hal = "0.6"
glsl-to-spirv = "0.1"
handy = "0.1"
image = { version = "0.23", default-features = false }
log = "0.4"
nalgebra = "0.22"
pathfinder_geometry = "0.5"
winit = "0.22"
