[package]
name = "meraid"
version = "0.2.0"
edition = "2021"
publish = false

[dependencies]
unicode-width = "0.2"
anyhow = "1"
clap = { version = "4", features = ["derive"] }
serde = { version = "1", features = ["derive"] }
serde_json = "1"
