[package]
name = "gesture_raster"
version = "0.1.0"
edition = "2021"
publish = false

[dependencies]
image = { version = "0.23", default-features = false, features = ["png"] }
eframe = { version = "0.16", features = ["persistence"] }
serde = { version = "1", features = ["derive"] }
