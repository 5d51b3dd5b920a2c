[package]
name = "qmenu"
version = "0.1.0"
edition = "2021"
publish = false

[dependencies]
cosmic-text = "0.12"
image = { version = "0.25", default-features = false, features = ["png"] }
resvg = "0.45"
serde = { version = "1", features = ["derive"] }
smithay-client-toolkit = "0.19"
toml = "0.8"
wayland-client = "0.31"
