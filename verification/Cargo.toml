[package]
name = "jsonflat"
version = "0.1.0"
edition = "2021"
publish = false

[dependencies]
clap = { version = "*", features = ["derive"] }
serde_json = { version = "*", features = ["preserve_order"] }
