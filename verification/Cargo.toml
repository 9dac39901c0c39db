[package]
name = "samp_vanilla_assets"
version = "0.1.0"
edition = "2021"
publish = false

[dependencies]
samp = "*"
log = "0.4"
ffmpeg-sidecar = "*"
tiny_http = "0.12"
serde = { version = "1", features = ["derive"] }
toml = "*"
