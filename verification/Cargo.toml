[package]
name = "dubai"
version = "0.1.0"
edition = "2021"
publish = false

[dependencies]
clap = { version = "4", features = ["derive"] }
ffmpeg-sidecar = "*"
tokio = { version = "1", features = ["full"] }
