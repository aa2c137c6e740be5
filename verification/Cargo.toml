[package]
name = "poketcg"
version = "0.1.0"
edition = "2021"
publish = false

[dependencies]
serenity = { version = "0.11", features = ["collector"] }
mongodb = "2"
tokio = { version = "1", features = ["macros", "rt-multi-thread", "time"] }
futures = "0.3"
serde = { version = "1", features = ["derive"] }
serde_json = "1"
dotenv = "0.15"
