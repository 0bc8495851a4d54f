[package]
name = "lemon_apod"
version = "0.1.0"
edition = "2021"
publish = false

[dependencies]
chrono = { version = "=0.4.45", default-features = false, features = ["alloc"] }
regex = "=1.13.1"
serde = { version = "=1.0.229", features = ["derive"] }
serde_json = "=1.0.154"
thiserror = "=2.0.21"
url = "=2.5.8"
encoding_rs = "=0.8.44"
scraper = "=0.29.0"
unicode-normalization = "0.1"
