[package]
name = "str0m"
version = "0.1.0"
edition = "2021"
publish = false

[dependencies]
rouille = "3"
tracing = "0.1"
tracing-subscriber = { version = "0.3", features = ["env-filter"] }
