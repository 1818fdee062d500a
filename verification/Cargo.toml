[package]
name = "sentence_puzzle"
version = "0.1.0"
edition = "2021"
publish = false

[dependencies]
rand = "=0.8.8"
bevy = { version = "0.16", default-features = false, features = ["std", "async_executor", "multi_threaded", "bevy_asset", "bevy_color", "bevy_core_pipeline", "bevy_log", "bevy_render", "bevy_state", "bevy_text", "bevy_ui", "bevy_window", "default_font", "png"] }
