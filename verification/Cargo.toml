[package]
name = "rafor"
version = "0.1.0"
edition = "2021"
publish = false

[dependencies]
radsort = "=0.1.1"
rand = { version = "=0.9.5", features = ["small_rng"] }
serde = { version = "=1.0.229", features = ["derive"] }
