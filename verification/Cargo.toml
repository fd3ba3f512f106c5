[package]
name = "contact_detector"
version = "0.1.0"
edition = "2021"
publish = false

[dependencies]
kiddo = "=5.3.3"
nalgebra = "=0.35.0"
serde = { version = "=1.0.229", features = ["derive"] }
serde_json = "=1.0.151"
chrono = "=0.4.45"
rayon = "=1.12.0"
log = "=0.4.34"
