[package]
name = "file_renamer_rs"
version = "0.1.0"
edition = "2021"
publish = false

[dependencies]
regex = "1"
eframe = { version = "0.29", default-features = false, features = ["glow", "default_fonts", "x11"] }
rfd = "0.15"
