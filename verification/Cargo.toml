[package]
name = "super_image_worker"
version = "0.1.0"
edition = "2021"
publish = false

[dependencies]
sha2 = "0.10"
clap = { version = "4", features = ["derive"] }
libc = "0.2"
rayon = "1"
serde_json = "1"
