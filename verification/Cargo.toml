[package]
name = "langler_content"
version = "0.1.0"
edition = "2021"
publish = false

[dependencies]
readabilityrs = "=0.1.4"
rustler = "=0.35.1"
scraper = "=0.29.0"
serde = { version = "=1.0.229", features = ["derive"] }
serde_json = "=1.0.154"
