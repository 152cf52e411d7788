[package]
name = "point_cloud"
version = "0.1.0"
edition = "2021"
publish = false

[dependencies]
rand = "=0.8.8"
bytemuck = { version = "=1.25.2", features = ["derive"] }
parry3d = "=0.31.1"
