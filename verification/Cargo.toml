[package]
name = "simpler_notes"
version = "0.1.0"
edition = "2021"
publish = false

[dependencies]
chrono = { version = "=0.4.45", default-features = false, features = ["std", "clock"] }
dashmap = "=6.2.1"
serde = { version = "=1.0.229", features = ["derive"] }
serde_json = "=1.0.154"
walkdir = "=2.5.0"
notify = "=6.1.1"
parking_lot = "=0.12.5"
urlencoding = "=2.1.3"
regex = "=1.13.1"
pathdiff = "=0.2.3"
git2 = { version = "=0.19.0", default-features = false }
comrak = { version = "*", default-features = false }
