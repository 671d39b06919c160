[package]
name = "starsurge"
version = "0.1.0"
edition = "2021"
publish = false

[dependencies]
bevy = { version = "0.10", default-features = false, features = ["bevy_asset", "bevy_core_pipeline", "bevy_pbr", "bevy_render", "bevy_scene"] }
bevy_common_assets = { version = "0.6", features = ["ron"] }
bevy_console = "0.7"
bevy_egui = "0.20"
bevy_mod_raycast = "0.8"
bevy_prototype_debug_lines = { version = "0.10", features = ["3d"] }
clap = { version = "4", features = ["derive"] }
serde = { version = "1", features = ["derive"] }
