[package]
name = "profilers"
version = "0.1.0"
edition = "2021"
publish = false

[dependencies]
thousands = "=0.2.0"
html-escape = "=0.2.15"
log = "=0.4.35"
serde = { version = "=1.0.229", features = ["derive"] }
serde_json = "1"
uuid = { version = "=1.29.0", features = ["v4", "serde"] }
chrono = { version = "=0.4.45", features = ["serde"] }
