[package]
name = "command_palette"
version = "0.1.0"
edition = "2021"
publish = false

[dependencies]
chrono = "0.4"
image = { version = "0.25", default-features = false, features = ["png"] }
rusqlite = { version = "0.32", features = ["bundled"] }
serde_json = "1"
