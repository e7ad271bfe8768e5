[package]
name = "parcheck"
version = "0.1.0"
edition = "2021"
publish = false

[dependencies]
fastrand = "*"
tokio = { version = "*", features = ["sync", "time", "rt", "macros"] }
futures-util = "*"
pin-project-lite = "*"
