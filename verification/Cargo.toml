[package]
name = "waverunner"
version = "0.1.0"
edition = "2021"
publish = false

[dependencies]
anyhow = "=1.0.104"
calloop = "=0.14.5"
calloop-wayland-source = "=0.4.1"
freedesktop-desktop-entry = { version = "=0.8.4", default-features = false }
freedesktop-icons = "=0.4.0"
image = { version = "=0.25.10", default-features = false, features = ["png", "jpeg", "gif", "webp", "bmp"] }
libc = "=0.2.191"
nucleo-matcher = "=0.3.1"
resvg = { version = "=0.49.0", default-features = false }
serde = { version = "=1.0.229", features = ["derive"] }
serde_json = "=1.0.154"
toml = "=1.1.8"
wayland-client = "=0.31.15"
wayland-protocols-wlr = { version = "=0.3.12", features = ["client"] }
