[package]
name = "colony"
version = "0.1.0"
edition = "2021"
publish = false

[dependencies]
rand = { version = "=0.8.8", features = ["small_rng"] }
serde = { version = "=1.0.229", features = ["derive"] }
serde_json = "=1.0.154"
bincode = "=1.3.3"
chrono = "=0.4.45"
image = { version = "=0.24.9", default-features = false, features = ["png"] }
tokio = { version = "=1.54.1", features = ["full"] }
