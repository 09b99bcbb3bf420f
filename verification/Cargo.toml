[package]
name = "pcyp-rust"
version = "0.1.0"
edition = "2021"
publish = false

[dependencies]
regex = "=1.13.1"
encoding_rs = "=0.8.44"
serde = { version = "=1.0.229", features = ["derive"] }
serde_json = "=1.0.154"
ureq = "=3.5.1"
eframe = { version = "=0.37.0", default-features = false, features = ["glow", "default_fonts", "x11"] }
egui_extras = { version = "=0.37.0", default-features = false }
rfd = { version = "=0.17.2", default-features = false }
tray-icon = { version = "=0.26.1", default-features = false }
tauri-winrt-notification = "=0.8.1"
windows-sys = "=0.61.2"
raw-window-handle = "=0.6.2"
