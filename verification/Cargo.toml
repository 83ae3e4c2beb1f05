[package]
name = "fruit_pit"
version = "0.1.0"
edition = "2021"
publish = false

[dependencies]
avian2d = { version = "0.1", default-features = false, features = ["2d", "f32", "parry-f32"] }
bevy = { version = "0.14", default-features = false, features = ["bevy_asset", "bevy_state"] }
bevy_asset_loader = "0.21"
strum = { version = "0.26", features = ["derive"] }
strum_macros = "0.26"
