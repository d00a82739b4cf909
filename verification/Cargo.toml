[package]
name = "rammer"
version = "0.1.0"
edition = "2021"
publish = false

[dependencies]
unicode-segmentation = "*"
serde = { version = "*", features = ["derive"] }
serde_json = "*"
rayon = "*"
