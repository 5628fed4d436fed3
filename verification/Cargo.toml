[package]
name = "asteroid_colonies_logic"
version = "0.1.0"
edition = "2021"
publish = false

[dependencies]
fnv = "1"
serde = { version = "1", features = ["derive"] }
serde_json = "1"
bincode = "1"
