[package]
name = "qr_scan"
version = "0.1.0"
edition = "2021"
publish = false

[dependencies]
anyhow = "=1.0.104"
csv = "=1.4.0"
image = { version = "=0.25.10", default-features = false, features = ["bmp", "jpeg", "png", "tiff", "webp"] }
lopdf = { version = "=0.46.0", default-features = false }
quircs = "=0.10.3"
rqrr = "=0.11.0"
walkdir = "=2.5.0"
zip = { version = "=2.6.1", default-features = false, features = ["deflate"] }
