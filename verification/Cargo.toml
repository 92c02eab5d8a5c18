[package]
name = "station"
version = "0.1.0"
edition = "2021"
publish = false

[dependencies]
rand = "=0.8.8"
regex = "=1.13.1"
serde = { version = "=1.0.229", features = ["derive"] }
ron = "=0.8.1"
toml = "=0.8.23"

[dev-dependencies]
nom = "7"
