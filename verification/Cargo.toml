[package]
name = "chessehc"
version = "0.1.0"
edition = "2021"
publish = false

[dependencies]
rusqlite = "0.29"
serde = { version = "1", features = ["derive"] }
serde_json = "1"
