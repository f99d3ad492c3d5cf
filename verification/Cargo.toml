[package]
name = "voxel_core"
version = "0.1.0"
edition = "2021"
publish = false

[dependencies]
rusqlite = { version = "*", features = ["bundled"] }
noise = "*"
ron = "*"
serde = { version = "*", features = ["derive"] }
