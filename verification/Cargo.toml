[package]
name = "starboard"
version = "0.1.0"
edition = "2021"
publish = false

[dependencies]
futures = "0.3"
poise = "0.6"
rand = "0.8"
rusqlite = { version = "*", features = ["bundled"] }
serenity = "0.12"
tokio = { version = "1", features = ["macros", "rt-multi-thread"] }
