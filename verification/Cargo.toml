[package]
name = "gpui_base"
version = "0.1.0"
edition = "2021"
publish = false

[dependencies]
unicode-segmentation = "=1.13.3"
regex = "=1.13.1"
serde = { version = "1", features = ["derive"] }
serde_json = "1"
dirs = "*"
