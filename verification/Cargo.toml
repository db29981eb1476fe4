[package]
name = "mini-assets"
version = "0.1.0"
edition = "2021"
publish = false

[dependencies]
anyhow = "1"
chrono = "0.4"
clap = "2"
hex = "0.4"
lazy_static = "1"
magick_rust = "*"
serde = { version = "1", features = ["derive"] }
serde_json = "1"
serde_yaml = "0.8"
sha2 = "0.10"
thiserror = "1"
