[package]
name = "data_plumber"
version = "0.1.0"
edition = "2021"
publish = false

[dependencies]
async-global-executor = "*"
itertools = "*"
lapin = "*"
mysql = "*"
serde = { version = "1", features = ["derive"] }
serde_json = "1"
