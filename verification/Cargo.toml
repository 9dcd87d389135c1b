[package]
name = "transcription_analyzer"
version = "0.1.0"
edition = "2021"
publish = false

[dependencies]
serde_json = "1"
tokio = { version = "1", features = ["full"] }
clap = { version = "4", features = ["derive"] }
dotenv = "0.15"
ratatui = "*"
espionox = "*"
