[package]
name = "comic_reader"
version = "0.1.0"
edition = "2021"
publish = false

[dependencies]
lru = "=0.12.5"
image = { version = "=0.25.10", default-features = false, features = ["png", "jpeg", "gif", "webp"] }
egui = "=0.31.1"
eframe = { version = "=0.31.1", default-features = false, features = ["x11", "glow", "default_fonts"] }
log = "=0.4.34"
