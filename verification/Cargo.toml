[package]
name = "voxxel_engine"
version = "0.1.0"
edition = "2021"
publish = false

[dependencies]
fontdue = "*"
gl = "*"
image = { version = "*", default-features = false, features = ["png", "jpeg"] }
nalgebra-glm = "*"
sdl2 = "*"
