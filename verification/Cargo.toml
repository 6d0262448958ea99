[package]
name = "tile_movement"
version = "0.1.0"
edition = "2021"
publish = false

[dependencies]
rand = "=0.9.5"
bevy = { version = "=0.17.3", default-features = false, features = ["std", "async_executor", "multi_threaded", "animation", "bevy_asset", "bevy_color", "bevy_core_pipeline", "bevy_gizmos", "bevy_gltf", "bevy_log", "bevy_mesh_picking_backend", "bevy_pbr", "bevy_picking", "bevy_render", "bevy_scene", "bevy_image", "bevy_mesh", "bevy_camera", "bevy_light", "bevy_shader", "bevy_state", "bevy_window", "bevy_winit", "x11"] }
bevy_asset_loader = { version = "=0.24.0", default-features = false }
