[package]
name = "can_viz"
version = "0.1.0"
edition = "2021"
publish = false

[dependencies]
chrono = "0.4"
tokio-serial = "5"
