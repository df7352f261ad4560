[package]
name = "libtqsm"
version = "0.1.0"
edition = "2021"
publish = false

[dependencies]
anyhow = "1"
fancy-regex = "0.13"
regex = "1"
serde = { version = "1", features = ["derive"] }
serde_json = "1"
unicode-segmentation = "1"
