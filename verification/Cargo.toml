[package]
name = "lmprep"
version = "0.1.0"
edition = "2021"
publish = false

[dependencies]
ignore = "*"
anyhow = "*"
clap = { version = "*", features = ["derive"] }
serde = { version = "*", features = ["derive"] }
serde_yaml = "*"
walkdir = "*"
zip = "*"
