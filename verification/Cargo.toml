[package]
name = "rustsweeper"
version = "0.1.0"
edition = "2021"
publish = false

[dependencies]
rand = "=0.8.8"
bevy = { version = "=0.19.1", default-features = false, features = ["2d_api", "bevy_render", "bevy_core_pipeline", "bevy_sprite_render", "default_app", "bevy_picking", "mesh_picking", "default_font", "std"] }
