[package]
name = "subotai_core"
version = "0.1.0"
edition = "2021"
publish = false

[dependencies]
bus = "2"
time = "0.1"
rand = "0.8"
serde = { version = "1", features = ["derive"] }
