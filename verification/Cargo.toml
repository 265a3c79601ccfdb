[package]
name = "hoard"
version = "0.1.0"
edition = "2021"
publish = false

[dependencies]
anyhow = "1"
log = "0.4"
prettytable-rs = "0.10"
rand = "0.8"
serde = { version = "1", features = ["derive"] }
serde_yaml = "0.9"
