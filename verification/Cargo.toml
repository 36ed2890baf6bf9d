[package]
name = "hexagon_launcher"
version = "0.1.0"
edition = "2021"
publish = false

[dependencies]
glam = "*"
mint = "=0.5.9"
serde = { version = "=1.0.229", features = ["derive"] }
clap = { version = "=4.6.7", features = ["derive"] }
tokio = { version = "=1.54.1", features = ["macros", "rt"] }
tracing = "=0.1.44"
tracing-subscriber = { version = "=0.3.23", features = ["env-filter"] }
color-eyre = "=0.6.5"
stardust-xr-fusion = "*"
stardust-xr-molecules = "*"
stardust-xr-asteroids = "*"
