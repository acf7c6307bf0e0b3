[package]
name = "matchmaker"
version = "0.1.0"
edition = "2021"
publish = false

[dependencies]
chrono = { version = "=0.4.45", features = ["serde"] }
inline-python = "=0.14.4"
itertools = "=0.15.0"
parking_lot = "=0.13.0"
rand = "=0.8.8"
rayon = "=1.12.0"
rusqlite = "=0.40.2"
serde = { version = "=1.0.229", features = ["derive"] }
serde_json = "=1.0.154"
serde_repr = "=0.1.21"
