[package]
name = "bevy_realtime"
version = "0.1.0"
edition = "2021"
publish = false

[dependencies]
bevy = { version = "=0.14.2", default-features = false }
bevy_crossbeam_event = "=0.6.0"
serde_json = "1"
