[package]
name = "image_janitor"
version = "0.1.0"
edition = "2021"
publish = false

[dependencies]
anyhow = "1"
clap = { version = "4", features = ["derive"] }
env_logger = "0.11"
glob = "0.3"
log = "0.4"
path-clean = "1"
regex = "1"
thiserror = "2"
walkdir = "2"
