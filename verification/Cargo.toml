[package]
name = "transit_schedule"
version = "0.1.0"
edition = "2021"
publish = false

[dependencies]
chrono = "=0.4.45"
quick-xml = "=0.38.4"
proj = "=0.31.0"
bevy = { version = "=0.16.1", default-features = false, features = ["std", "bevy_log"] }
