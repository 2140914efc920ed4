[package]
name = "sjdiff"
version = "0.1.0"
edition = "2021"
publish = false

[dependencies]
approx = "*"
chrono = "*"
serde = { version = "*", features = ["derive"] }
serde_json = "*"
