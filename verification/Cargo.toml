[package]
name = "pixel-palette-colorizer"
version = "0.1.0"
edition = "2021"
publish = false

[dependencies]
anyhow = "1"
clap = { version = "4", features = ["derive"] }
image = { version = "0.25", default-features = false, features = ["png", "jpeg", "gif", "bmp"] }
indicatif = "0.17"
palette = "0.7"
rayon = "1"
tracing = "0.1"
tracing-subscriber = "0.3"
walkdir = "2"
