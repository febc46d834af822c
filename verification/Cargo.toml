[package]
name = "fast_hashdeep"
version = "0.1.0"
edition = "2021"
publish = false

[dependencies]
md5 = "*"
chrono = "*"
walkdir = "*"
clap = { version = "*", features = ["derive"] }
