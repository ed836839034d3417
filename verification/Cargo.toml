[package]
name = "picture_cleaner"
version = "0.1.0"
edition = "2021"
publish = false

[dependencies]
image = { version = "0.25", default-features = false, features = ["jpeg", "png", "webp"] }
serde = { version = "1", features = ["derive"] }
sha2 = "0.10"
trash = "5"
walkdir = "2"
