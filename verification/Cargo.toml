[package]
name = "hashlife"
version = "0.1.0"
edition = "2021"
publish = false

[dependencies]
piston = "=1.0.0"
piston2d-graphics = "=0.45.0"
piston2d-opengl_graphics = "=0.89.0"
pistoncore-sdl2_window = "=0.71.0"
shader_version = "=0.7.0"
