[package]
name = "prediction_game"
version = "0.1.0"
edition = "2021"
publish = false

[dependencies]
indicatif = "*"
rayon = "*"
serde = { version = "*", features = ["derive"] }
serde_json = "*"
