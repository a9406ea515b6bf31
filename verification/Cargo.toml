[package]
name = "simple_cells"
version = "0.1.0"
edition = "2021"
publish = false

[dependencies]
json = "0.12"
chrono = "0.4"
sdl2 = { version = "0.34", features = ["image"] }
opencl3 = "*"
