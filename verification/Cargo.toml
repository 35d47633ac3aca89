[package]
name = "game_mon"
version = "0.1.0"
edition = "2021"
publish = false

[dependencies]
dashmap = "*"
dirs = "*"
log = "0.4"
serde = { version = "1", features = ["derive"] }
toml = "*"
