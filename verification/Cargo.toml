[package]
name = "chat_relay"
version = "0.1.0"
edition = "2021"
publish = false

[dependencies]
uuid = { version = "*", features = ["v4"] }
serde_urlencoded = "*"
serde = { version = "*", features = ["derive"] }
actix = "*"
actix-web = "*"
actix-web-actors = "*"
actix-cors = "*"
log = "*"
env_logger = "*"
