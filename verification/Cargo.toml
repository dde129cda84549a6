[package]
name = "rat-king"
version = "0.1.0"
edition = "2021"
publish = false

[dependencies]
usvg = "=0.45.1"
resvg = "=0.45.1"
tiny-skia = "=0.11.4"
lyon_geom = "=1.0.20"
serde = { version = "=1.0.229", features = ["derive"] }
serde_json = "=1.0.154"
image = "=0.25.10"
ratatui = "=0.30.2"
crossterm = "0.29"
ratatui-image = "=1.0.5"
chrono = "=0.4.45"
