[package]
name = "pocket_decor"
version = "0.1.0"
edition = "2021"
publish = false

[dependencies]
bevy_obj = "=0.15.1"
bevy_simple_text_input = "=0.10.2"

[dependencies.bevy]
version = "=0.15.3"
default-features = false
features = ["bevy_asset", "bevy_color", "bevy_core_pipeline", "bevy_mesh_picking_backend", "bevy_pbr", "bevy_picking", "bevy_render", "bevy_scene", "bevy_text", "bevy_ui", "bevy_ui_picking_backend", "bevy_window", "default_font", "multi_threaded", "png", "tonemapping_luts"]
