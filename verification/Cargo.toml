[package]
name = "rust_systems_lab"
version = "0.1.0"
edition = "2021"
publish = false

[dependencies]
bincode = { version = "2", features = ["serde"] }
serde = { version = "1", features = ["derive"] }
sha2 = "0.10"
hex = "0.4"
