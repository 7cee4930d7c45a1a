[package]
name = "cobot_hub"
version = "0.1.0"
edition = "2021"
publish = false

[dependencies]
serde = { version = "1", features = ["derive"] }
serde_json = "1"
rand = "0.8"
eframe = { version = "0.31", default-features = false, features = ["default_fonts", "glow", "x11"] }
