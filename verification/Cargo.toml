[package]
name = "raytrace2d"
version = "0.1.0"
edition = "2021"
publish = false

[dependencies]
bevy = { version = "=0.15.3", default-features = false, features = ["bevy_asset", "bevy_color", "bevy_core_pipeline", "bevy_dev_tools", "bevy_gizmos", "bevy_render", "bevy_sprite", "bevy_text", "bevy_ui", "bevy_window", "default_font", "tonemapping_luts"] }
