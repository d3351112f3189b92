[package]
name = "dualis"
version = "0.1.0"
edition = "2021"
publish = false

[dependencies]
glam = "*"
serde = { version = "1", features = ["derive"] }
