[package]
name = "delo"
version = "0.1.0"
edition = "2021"
publish = false

[dependencies]
base64 = "0.22"
sha2 = "0.10"
image = { version = "0.25", default-features = false, features = ["jpeg", "png", "gif", "webp", "bmp", "tiff"] }
bit-vec = "*"
fastrand = "2"
rayon = "1"
walkdir = "2"
serde = { version = "1", features = ["derive"] }
