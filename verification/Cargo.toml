[package]
name = "lssg"
version = "0.1.0"
edition = "2021"
publish = false

[dependencies]
regex = "=1.13.1"
toml = "=0.8.23"
serde = { version = "=1.0.229", features = ["derive"] }
chrono = { version = "0.4", default-features = false, features = ["std", "clock"] }
