[package]
name = "bevy_background_compute"
version = "0.1.0"
edition = "2021"
publish = false

[dependencies]
async-channel = "2"
bevy_app = { version = "0.15", default-features = false }
bevy_ecs = { version = "0.15", default-features = false }
bevy_tasks = { version = "0.15", features = ["multi_threaded"] }
