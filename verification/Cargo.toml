[package]
name = "mudhuts"
version = "0.1.0"
edition = "2021"
publish = false

[dependencies]
alacritty_terminal = "=0.25.1"
calloop = "=0.14.5"
fontconfig = "=0.11.0"
fontdue = "=0.9.5"
memmap2 = "=0.9.12"
pipewire = "=0.10.1"
png = "=0.18.1"
serde = { version = "=1.0.229", features = ["derive"] }
smithay = { version = "=0.7.0", default-features = false, features = ["desktop", "renderer_gl", "wayland_frontend"] }
tempfile = "=3.27.0"
tokio = { version = "=1.54.1", features = ["macros", "rt-multi-thread", "sync", "time"] }
toml = "=1.1.8"
tracing = "=0.1.44"
tracing-subscriber = { version = "=0.3.23", features = ["env-filter"] }
wayland-client = "=0.31.15"
wayland-protocols = { version = "=0.32.13", features = ["client", "staging", "unstable"] }
wayland-server = "=0.31.14"
xcursor = "=0.3.11"
zbus = { version = "=5.19.0", default-features = false, features = ["tokio"] }
