[package]
name = "bevytiles"
version = "0.1.0"
edition = "2021"
publish = false

[dependencies]
image = { version = "0.25", default-features = false, features = ["png"] }
crossbeam-channel = "0.5"
ehttp = { version = "0.5", features = ["native-async"] }
bevy = { version = "0.16", default-features = false, features = ["std", "bevy_pbr", "bevy_render", "bevy_core_pipeline", "bevy_asset", "bevy_log"] }
