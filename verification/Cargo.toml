[package]
name = "spanlog"
version = "0.1.0"
edition = "2021"
publish = false

[dependencies]
chrono = "*"
tracing = "*"
tracing-subscriber = "*"
