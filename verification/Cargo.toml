[package]
name = "orderbook"
version = "0.1.0"
edition = "2021"
publish = false

[dependencies]
uuid = { version = "1", features = ["v4"] }
chrono = "0.4"
bcrypt = "*"
serde = { version = "1", features = ["derive"] }
serde_json = "1"
tokio = { version = "1", features = ["sync", "macros", "rt-multi-thread"] }
actix-web = "4"
actix-web-httpauth = "*"
jsonwebtoken = "*"
env_logger = "*"
