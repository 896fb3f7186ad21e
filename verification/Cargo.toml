[package]
name = "filefile"
version = "0.1.0"
edition = "2021"
publish = false

[dependencies]
anyhow = "1"
clap = "4"
serde_yaml = "0.9"
ureq = "2"
