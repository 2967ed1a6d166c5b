[package]
name = "video_silence_remover"
version = "0.1.0"
edition = "2021"
publish = false

[dependencies]
env_logger = "0.11"
hound = "3.5"
log = "0.4"
serde = { version = "1", features = ["derive"] }
