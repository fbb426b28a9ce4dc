[package]
name = "log_slicer"
version = "0.1.0"
edition = "2021"
publish = false

[dependencies]
anyhow = "1"
clap = { version = "4", features = ["derive"] }
regex = "1"
serde_json = { version = "1", features = ["preserve_order"] }
time = { version = "0.3", features = ["parsing"] }
