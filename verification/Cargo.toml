[package]
name = "nine29_bot"
version = "0.1.0"
edition = "2021"
publish = false

[dependencies]
chrono = "0.4"
poise = "0.5"
mongodm = "*"
bson = "2"
serde = { version = "1", features = ["derive"] }
serde_json = "1"
snafu = "0.7"
tokio = { version = "1", features = ["full"] }
anyhow = "1"
dotenv = "0.15"
log = "0.4"
tracing-subscriber = "0.3"
