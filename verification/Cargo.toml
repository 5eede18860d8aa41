[package]
name = "game_of_life"
version = "0.1.0"
edition = "2021"
publish = false

[dependencies]
anyhow = "=1.0.104"
bevy = { version = "=0.7.0", default-features = false, features = ["bevy_render", "bevy_sprite", "bevy_core_pipeline", "bevy_winit", "x11"] }
# bevy 0.7's derive crates use syn's `full` feature without asking for it;
# `complex-expressions` switches it on for them. Nothing else is taken from num_enum.
num_enum = { version = "=0.5.11", features = ["complex-expressions"] }
