[package]
name = "chat_rooms"
version = "0.1.0"
edition = "2021"
publish = false

[dependencies]
tokio = { version = "*", features = ["full"] }
axum = { version = "*", features = ["ws"] }
axum-extra = { version = "*", features = ["typed-header"] }
futures-util = "*"
rdkafka = "*"
