[package]
name = "file2video"
version = "0.1.0"
edition = "2021"
publish = false

[dependencies]
anyhow = "1"
clap = { version = "4", features = ["derive"] }
crc32fast = "1"
nalgebra = "0.33"
sha2 = "0.10"
