[package]
name = "leaderboard"
version = "0.1.0"
edition = "2021"
publish = false

[dependencies]
bbt = "0.2.0"
chrono = "0.4"
tokio = { version = "1", features = ["macros", "rt-multi-thread", "time"] }
