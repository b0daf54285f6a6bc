[package]
name = "tron_bot"
version = "0.1.0"
edition = "2021"
publish = false

[dependencies]
grid = "*"
rand = "*"
log = "*"
fern = "*"
humantime = "*"
uuid = { version = "*", features = ["v4"] }
