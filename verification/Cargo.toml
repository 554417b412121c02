[package]
name = "gtnh-updater"
version = "0.1.0"
edition = "2021"
publish = false

[dependencies]
anyhow = "1"
crc32fast = "1"
diffy = "*"
dirs = "*"
eframe = { version = "*", default-features = false, features = ["default_fonts", "glow", "x11", "wayland"] }
serde = { version = "1", features = ["derive"] }
serde_json = "1"
ureq = "3"
walkdir = "2"
zip = { version = "*", default-features = false, features = ["deflate"] }
