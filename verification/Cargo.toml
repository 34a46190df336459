[package]
name = "retia_core"
version = "0.1.0"
edition = "2021"
publish = false

[dependencies]
serde = { version = "1", features = ["derive"] }
rmp-serde = "1"
tempfile = "3"
crossbeam = "0.8"
either = "1"
miette = "7"
sqlite = "*"
