[package]
name = "rgis_basemap"
version = "0.1.0"
edition = "2021"
publish = false

[dependencies]
bevy = { version = "0.18", default-features = false, features = ["bevy_asset", "bevy_image", "bevy_log", "bevy_render", "bevy_sprite", "bevy_window"] }
bevy_egui = { version = "0.39", default-features = false }
image = { version = "0.25", default-features = false, features = ["png"] }
tokio = { version = "1", features = ["rt-multi-thread", "net", "time"] }
