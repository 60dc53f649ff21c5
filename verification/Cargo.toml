[package]
name = "renamer"
version = "0.1.0"
edition = "2021"
publish = false

[dependencies]
blake3 = "1"
chrono = { version = "0.4", default-features = false, features = ["alloc", "clock", "std"] }
egui = "0.29"
egui_extras = { version = "0.29", default-features = false }
image = { version = "=0.25.5", default-features = false, features = ["bmp", "gif", "jpeg", "png", "tiff", "webp"] }
kamadak-exif = "0.5"
rusqlite = { version = "0.32", features = ["bundled"] }
serde_json = "1"
ureq = { version = "2", default-features = false, features = ["json", "tls"] }
walkdir = "2"
