[package]
name = "chart_dedup"
version = "0.1.0"
edition = "2021"
publish = false

[dependencies]
irox-time = "=0.5.1"
irox-log = { version = "=0.2.3", features = ["std"] }
