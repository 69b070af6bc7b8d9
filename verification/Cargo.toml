[package]
name = "wordle_solver"
version = "0.1.0"
edition = "2021"
publish = false

[dependencies]
bincode = "1.3"
indicatif = "0.17"
ndarray = { version = "0.15", features = ["serde"] }
serde = { version = "1", features = ["derive"] }
