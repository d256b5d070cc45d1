[package]
name = "datetime"
version = "0.1.0"
edition = "2021"
publish = false

[dev-dependencies]
chrono = { version = "*", default-features = false, features = ["std"] }
