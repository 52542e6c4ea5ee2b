[package]
name = "audioverse_core"
version = "0.1.0"
edition = "2021"
publish = false

[dependencies]
crossbeam-queue = "=0.3.14"
glam = "=0.29.3"
serde = { version = "=1.0.229", features = ["derive"] }
serde_json = "=1.0.154"
parking_lot = "=0.12.5"
bevy_ecs = "=0.16.1"
bevy_app = "=0.16.1"
bevy_time = "=0.16.1"
bevy_transform = "=0.16.1"
bevy_input = "=0.16.1"
bevy_math = "=0.16.1"
bevy_rapier3d = "=0.30.0"
bevy-tnua = "=0.24.0"
