[package]
name = "presence"
version = "0.1.0"
edition = "2021"
publish = false

[dependencies]
anyhow = "1"
sqlx = { version = "*", default-features = false, features = ["postgres", "uuid"] }
uuid = "1"
