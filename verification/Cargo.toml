[package]
name = "social_network"
version = "0.1.0"
edition = "2021"
publish = false

[dependencies]
futures = "*"
sqlx = { version = "*", features = ["sqlite", "runtime-tokio"] }
