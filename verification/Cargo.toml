[package]
name = "bin_ocr"
version = "0.1.0"
edition = "2021"
publish = false

[dependencies]
image = { version = "0.25", default-features = false, features = ["png", "jpeg", "gif", "bmp", "tiff", "webp"] }
csv = "1"
serde = { version = "1", features = ["derive"] }
bincode = "1"
tokio = { version = "1", features = ["rt-multi-thread", "sync"] }
