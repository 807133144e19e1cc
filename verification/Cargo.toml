[package]
name = "manotz"
version = "0.1.0"
edition = "2021"
publish = false

[dependencies]
unicode-segmentation = "1"
unicode-width = "*"
pulldown-cmark = { version = "*", default-features = false }
crossterm = "*"
serde = { version = "1", features = ["derive"] }
serde_json = "1"
