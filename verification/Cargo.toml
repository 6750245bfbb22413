[package]
name = "median_filter"
version = "0.1.0"
edition = "2021"
publish = false

[dependencies]
image = { version = "0.25", default-features = false, features = ["png", "jpeg"] }
rand = "0.8"
rayon = "1"
mpi = "*"
wgpu = "*"
bytemuck = "1"
pollster = "*"
clap = { version = "4", features = ["derive"] }
csv = "1"
chrono = "0.4"
serde = { version = "1", features = ["derive"] }
