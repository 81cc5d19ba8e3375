[package]
name = "phototools"
version = "0.1.0"
edition = "2021"
publish = false

[dependencies]
chrono = "0.4"
clap = "4"
env_logger = "*"
filetime = "0.2"
kamadak-exif = "*"
log = "0.4"
