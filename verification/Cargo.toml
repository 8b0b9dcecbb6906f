[package]
name = "game_scanner"
version = "0.1.0"
edition = "2021"
publish = false

[dependencies]
walkdir = "2"
chrono = "0.4"
once_cell = "1"
zip = "*"
rusqlite = { version = "*", features = ["bundled"] }
