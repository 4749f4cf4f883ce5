[package]
name = "ocr_lab"
version = "0.1.0"
edition = "2021"
publish = false

[dependencies]
anyhow = "1"
async-io = "2"
clap = { version = "4", features = ["derive"] }
ffmpeg-next = "*"
glam = "*"
image = { version = "0.25", default-features = false, features = ["png", "jpeg", "bmp"] }
indicatif = "0.17"
input = "*"
libc = "0.2"
ndarray = "0.16"
opencv = "*"
serde = { version = "1", features = ["derive"] }
serde_json = "1"
tracing = "0.1"
tracing-subscriber = { version = "0.3", features = ["env-filter"] }
