[package]
name = "leaderboard_index"
version = "0.1.0"
edition = "2021"
publish = false

[dependencies]
indexmap = { version = "2", features = ["serde"] }
unicode-segmentation = "1"
varint-rs = "2"
rmp-serde = "1"
serde = "1"
serde_json = "1"
reqwest = "*"
tokio = { version = "1", features = ["macros", "rt-multi-thread", "time"] }
chrono = "0.4"
cron = "*"
rusqlite = { version = "*", features = ["bundled"] }
