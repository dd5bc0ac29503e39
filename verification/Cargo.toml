[package]
name = "app_launcher"
version = "0.1.0"
edition = "2021"
publish = false

[dependencies]
notify = "=8.2.1"
raw-window-handle = "=0.6.2"
rfd = { version = "=0.15.4", default-features = false, features = ["xdg-portal", "tokio"] }
serde = { version = "=1.0.229", features = ["derive"] }
serde_json = "=1.0.154"
slint = { version = "=1.13.1", default-features = false, features = ["std", "compat-1-2"] }
winit = { version = "=0.30.13", default-features = false, features = ["rwh_06", "x11"] }
