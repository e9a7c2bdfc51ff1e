[package]
name = "bat_img_rs"
version = "0.1.0"
edition = "2021"
publish = false

[dependencies]
kamadak-exif = "0.6"
flate2 = "1"
image = { version = "0.25", default-features = false, features = ["jpeg", "png", "tiff", "webp", "bmp", "gif"] }
libheif-rs = "*"
anyhow = "1"
thiserror = "*"
clap = { version = "4", features = ["derive"] }
colored = "*"
chrono = "0.4"
env_logger = "*"
indicatif = "*"
rayon = "1"
glob = "0.3"
walkdir = "2"
log = "0.4"
tempfile = "3"
