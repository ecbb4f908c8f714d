[package]
name = "f2png"
version = "0.1.0"
edition = "2021"
publish = false

[dependencies]
anyhow = "1"
argon2 = "0.5"
chacha20poly1305 = { version = "0.10", features = ["std", "stream"] }
clap = { version = "4", features = ["derive"] }
image = { version = "0.25", default-features = false, features = ["bmp", "gif", "jpeg", "png", "tiff", "webp"] }
rand = "0.8"
rayon = "1"
sha2 = "0.10"
tempfile = "3"
zeroize = "1"
