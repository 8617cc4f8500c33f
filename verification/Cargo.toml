[package]
name = "rustjay"
version = "0.1.0"
edition = "2021"
publish = false

[dependencies]
flate2 = "1"
uuid = { version = "1", features = ["v4"] }
crossbeam = "0.8"
log = "0.4"
anyhow = "1"
serde = { version = "1", features = ["derive"] }
wgpu = "*"
winit = "*"
imgui = "*"
