[package]
name = "work_timer"
version = "0.1.0"
edition = "2021"
publish = false

[dependencies]
chrono = "*"
csv = "*"
uuid = { version = "*", features = ["v4"] }
