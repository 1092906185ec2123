[package]
name = "walk_and_talk"
version = "0.1.0"
edition = "2021"
publish = false

[dependencies]
bevy = { version = "=0.18.1", default-features = false, features = ["std", "bevy_state", "serialize", "bevy_log", "bevy_window", "bevy_ui", "bevy_text"] }
serde = { version = "=1.0.229", features = ["derive"] }
ron = "=0.12.3"
