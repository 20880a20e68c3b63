[package]
name = "gomoku"
version = "0.1.0"
edition = "2021"
publish = false

[dependencies]
crossterm = "0.28"
serde = { version = "1", features = ["derive"] }
serde_json = "1"
thiserror = "2"
