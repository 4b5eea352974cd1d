[package]
name = "fellestrekk"
version = "0.1.0"
edition = "2021"
publish = false

[dependencies]
rand = "0.8"
websocket = { version = "*", default-features = false, features = ["sync"] }
