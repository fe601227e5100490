[package]
name = "wren_engine"
version = "0.1.0"
edition = "2021"
publish = false

[dependencies]
yaml-rust = "0.4"
semver = "1"
cgmath = "0.18"
image = "0.24"
winit = "0.28"
vulkano = "0.34"
vulkano-shaders = "0.34"
clap = { version = "4", features = ["derive"] }
