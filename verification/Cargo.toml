[package]
name = "cicada"
version = "0.1.0"
edition = "2021"
publish = false

[dependencies]
ansi_term = "=0.12.1"
serde = { version = "=1.0.229", features = ["derive"] }
uuid = { version = "1", features = ["v4"] }
