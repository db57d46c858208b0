[package]
name = "termsketch"
version = "0.1.0"
edition = "2021"
publish = false

[dependencies]
clap = { version = "=3.2.25", features = ["derive"] }
dssim-core = "=3.5.1"
font-kit = "0.14"
image = { version = "=0.24.9", default-features = false, features = ["png", "jpeg", "gif", "bmp"] }
imgref = "=1.12.3"
pathfinder_geometry = "=0.5.1"
rayon = "=1.12.0"
