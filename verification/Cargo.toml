[package]
name = "fistula"
version = "0.1.0"
edition = "2021"
publish = false

[dependencies]
pitch-detection = "0.3"
serde = { version = "1", features = ["derive"] }
serde_json = "1"
symphonia = { version = "0.5", features = ["mp3", "aac", "isomp4"] }
