[package]
name = "astrometry"
version = "0.1.0"
edition = "2021"
publish = false

[dependencies]
anyhow = "*"
clap = { version = "*", features = ["derive"] }
fitrs = "*"
image = "*"
imageproc = "*"
kd-tree = "*"
serde = { version = "*", features = ["derive"] }
serde_json = "*"
