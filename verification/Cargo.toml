[package]
name = "bevy_magic"
version = "0.18.0"
edition = "2021"
publish = false

[dependencies]
bevy = { version = "=0.18.1", default-features = false, features = ["std", "bevy_asset", "bevy_log"] }
ron = "=0.12.3"
serde = { version = "=1.0.229", features = ["derive"] }
thiserror = "=2.0.21"
