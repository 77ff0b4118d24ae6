[package]
name = "versus"
version = "0.1.0"
edition = "2021"
publish = false

[dependencies]
similar = "=3.2.1"
eframe = { version = "=0.37.0", default-features = false, features = ["default_fonts", "glow", "x11"] }
rfd = { version = "=0.17.2", default-features = false, features = ["xdg-portal"] }
url = "=2.5.8"
