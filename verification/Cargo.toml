[package]
name = "rdaw"
version = "0.1.0"
edition = "2021"
publish = false

[dependencies]
anyhow = "1"
serde = { version = "1", features = ["derive"] }
serde_json = "1"
rtrb = "0.4"
cpal = "0.17"
eframe = { version = "0.37", default-features = false, features = ["default_fonts", "glow", "x11"] }
