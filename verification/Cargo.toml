[package]
name = "snake_ai"
version = "0.1.0"
edition = "2021"
publish = false

[dependencies]
rand = "*"
minifb = "*"
cubecl = { version = "*", default-features = false, features = ["cuda"] }
bytemuck = "*"
pollster = "*"
