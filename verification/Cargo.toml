[package]
name = "imgpipe"
version = "0.1.0"
edition = "2021"
publish = false

[dependencies]
reqwest = { version = "*", default-features = false }
tokio = { version = "*", features = ["full"] }
futures = "*"
image = "*"
image-compare = "*"
image_compressor = "*"
anyhow = "*"
clap = { version = "*", features = ["derive"] }
