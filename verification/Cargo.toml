[package]
name = "prepare_audio"
version = "0.1.0"
edition = "2021"

[dependencies]
ebur128 = "*"
mp3lame-encoder = "*"
serde = { version = "1", features = ["derive"] }
symphonia = { version = "0.5", features = ["mp3", "aac", "isomp4", "alac", "aiff", "caf"] }
