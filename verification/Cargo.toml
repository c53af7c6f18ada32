[package]
name = "reposcrape"
version = "0.1.0"
edition = "2021"
publish = false

[dependencies]
chrono = "=0.4.45"
flate2 = "=1.1.10"
octocrab = "=0.44.1"
regex = "=1.13.1"
reqwest = { version = "=0.12.28", default-features = false, features = ["rustls-tls"] }
secrecy = "0.8"
serde = { version = "=1.0.229", features = ["derive"] }
serde_json = "=1.0.151"
serde_yaml = "=0.9.34"
tokio = { version = "=1.53.2", features = ["rt-multi-thread", "macros"] }
