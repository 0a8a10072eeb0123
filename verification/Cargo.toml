[package]
name = "hexsphere"
version = "0.1.0"
edition = "2021"
publish = false

[dependencies]
bevy = { version = "0.15", default-features = false, features = ["bevy_asset", "bevy_core_pipeline", "bevy_gizmos", "bevy_pbr", "bevy_render", "bevy_winit", "multi_threaded", "x11"] }
crossbeam = "0.8"
rand = "0.9"
