[package]
name = "poker"
version = "0.1.0"
edition = "2021"
publish = false

[dependencies]
borsh = { version = "*", features = ["derive"] }
serde = { version = "*", features = ["derive"] }
