[package]
name = "find_similar_images"
version = "0.1.0"
edition = "2021"
publish = false

[dependencies]
clap = "*"
csv = "*"
image = "*"
rayon = "*"
serde = { version = "*", features = ["derive"] }
