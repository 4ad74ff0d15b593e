[package]
name = "waterdrop_terrain_generator"
version = "0.1.0"
edition = "2021"
publish = false

[dependencies]
bevy = { version = "0.16", default-features = false, features = ["multi_threaded"] }
bytemuck = { version = "1", features = ["derive"] }
image = { version = "0.25", default-features = false, features = ["png"] }
inventory = "0.3"
rayon = "1"
serde = { version = "1", features = ["derive"] }
serde_json = "1"
